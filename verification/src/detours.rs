//! The detour table: installation and removal of inline hooks.
//!
//! A [`Detours`] value owns the executable regions and a table mapping each
//! hooked (resolved) target address to its [`Detour`] record. All mutation
//! goes through a [`DetoursGuard`], whose construction makes the regions
//! writable and whose `finish` puts them back to executable-read, mirroring
//! the guarded mutation window of the engine.

use vstd::prelude::*;

use std::collections::HashMap;

use crate::error::Error;
use crate::inst::{
    decode_instruction, fetch_rec, find_prologue_fetch, lemma_prologue_fetch_range,
    spec_decode_at, spec_prologue_fetch, MAX_INST_LEN, NEEDED_BYTES, PREFETCH_INST_SIZE,
};
use crate::mem::{
    alloc_block_post, fresh_region_at, lemma_fresh_keeps_range, lemma_fresh_slot_byte,
    region_mapped, slot_in_reach, spec_allocate_new, spec_fast_slot, spec_round_down, Block,
    Regions, BLOCK_COUNT, DETOUR_REGION_SIZE, TRAMPOLINE_SIZE,
};
use crate::memory::{mem_preserved, vfree, Memory, MemoryProtector};
use crate::x86::{
    detour_gen_jmp_immediate, detour_skip_jmp, detour_try_gen_jmp_immediate, jmp_bytes,
    jmp_reachable, spec_find_jmp_bounds, spec_skip_jmp,
};

verus! {

/// The contents of one trampoline slot: the relocated prologue followed by
/// the jump back into the target, padded to the slot size.
pub struct Trampoline {
    pub bytes: Vec<u8>,
}

/// One installed hook: the resolved target, how many prologue bytes were
/// relocated, the detour the target now jumps to, and the trampoline slot
/// holding the relocated bytes. The ghost fields remember the bytes the
/// target held before the hook and the window they were decoded from.
pub struct Detour {
    pub target: u64,
    pub fetch: usize,
    pub detour: u64,
    pub block: Block,
    pub original: Ghost<Seq<u8>>,
    pub window: Ghost<Seq<u8>>,
}

impl Detour {
    /// The callable address of the trampoline: the slot's start, where the
    /// relocated prologue begins.
    pub fn trampoline_addr(&self) -> (r: u64)
        ensures
            r == self.block.addr,
    {
        self.block.addr
    }

    /// A copy of the trampoline's live bytes: the relocated prologue and
    /// the tail jump.
    pub fn trampoline(&self, mem: &Memory) -> (r: Option<Trampoline>)
        requires
            mem.wf(),
            self.fetch + NEEDED_BYTES <= TRAMPOLINE_SIZE,
        ensures
            r matches Some(tr) ==> mem.range_in(
                self.block.addr as int,
                self.fetch + NEEDED_BYTES as int,
            ) && tr.bytes@ == mem.bytes_at(self.block.addr as int, (self.fetch + 5) as nat),
            r is None ==> !mem.range_in(self.block.addr as int, self.fetch + NEEDED_BYTES as int),
    {
        match mem.read_bytes(self.block.addr, self.fetch + NEEDED_BYTES) {
            None => None,
            Some(v) => Some(Trampoline { bytes: v }),
        }
    }
}

/// Everything a single installed detour promises about the bookkeeping and
/// the memory: its slot is allocated and in reach, the target begins with a
/// jump to the detour, the trampoline holds the original prologue (cut on
/// instruction boundaries) followed by the jump back, and the target range
/// stays clear of every region.
pub open spec fn detour_ok(regions: Regions, mem: Memory, d: Detour) -> bool {
    let ri = d.block.region_index as int;
    let si = d.block.slot_index as int;
    &&& NEEDED_BYTES <= d.fetch < NEEDED_BYTES + MAX_INST_LEN
    &&& ri < regions.regions@.len()
    &&& si < BLOCK_COUNT
    &&& regions.regions@[ri].state@[si]
    &&& d.block.addr == regions.regions@[ri].slot_addr(si)
    &&& d.original@.len() == d.fetch
    &&& d.window@.len() >= d.fetch
    &&& d.original@ == d.window@.subrange(0, d.fetch as int)
    &&& fetch_rec(d.window@, d.target, 0) == Some(d.fetch as nat)
    &&& mem.range_in(d.target as int, d.fetch as int)
    &&& jmp_reachable(d.target as int, d.detour as int)
    &&& jmp_reachable(d.block.addr + d.fetch, d.target + d.fetch)
    &&& mem.bytes_at(d.target as int, 5) == jmp_bytes(d.target as int, d.detour as int)
    &&& mem.bytes_at(d.target + 5, (d.fetch - 5) as nat) == d.original@.subrange(
        5,
        d.fetch as int,
    )
    &&& mem.bytes_at(d.block.addr as int, d.fetch as nat) == d.original@
    &&& mem.bytes_at(d.block.addr + d.fetch, 5) == jmp_bytes(
        d.block.addr + d.fetch,
        d.target + d.fetch,
    )
    &&& slot_in_reach(d.target as int, d.block.addr as int)
    &&& forall|i: int|
        0 <= i < regions.regions@.len() ==> (d.target + d.fetch <= (
        #[trigger] regions.regions@[i]).base || regions.regions@[i].base + DETOUR_REGION_SIZE
            <= d.target)
}

/// An installed detour stays sound when the regions only grow (away from
/// its target), its slot stays occupied at the same base, every mapped
/// range stays mapped, and the bytes of its own two ranges are untouched.
proof fn lemma_detour_carry(r1: Regions, r2: Regions, m1: Memory, m2: Memory, d2: Detour)
    requires
        m1.wf(),
        r1.wf_with(m1),
        detour_ok(r1, m1, d2),
        r1.regions@.len() <= r2.regions@.len(),
        forall|i: int|
            0 <= i < r1.regions@.len() ==> (#[trigger] r2.regions@[i]).base == r1.regions@[i].base,
        r2.regions@[d2.block.region_index as int].state@[d2.block.slot_index as int],
        forall|i: int|
            r1.regions@.len() <= i < r2.regions@.len() ==> (d2.target + d2.fetch <= (
            #[trigger] r2.regions@[i]).base || r2.regions@[i].base + DETOUR_REGION_SIZE
                <= d2.target),
        forall|x: int, n: int| #[trigger] m1.range_in(x, n) ==> m2.range_in(x, n),
        forall|x: int|
            d2.target <= x < d2.target + d2.fetch ==> #[trigger] m2.byte_at(x) == m1.byte_at(x),
        forall|x: int|
            d2.block.addr <= x < d2.block.addr + d2.fetch + 5 ==> #[trigger] m2.byte_at(x)
                == m1.byte_at(x),
    ensures
        detour_ok(r2, m2, d2),
{
    let ri2 = d2.block.region_index as int;
    let si2 = d2.block.slot_index as int;
    let base = r1.regions@[ri2].base;
    let j = choose|j: int|
        0 <= j < m1.segs@.len() && (#[trigger] m1.segs@[j]).base == base && m1.segs@[j].bytes@.len()
            == DETOUR_REGION_SIZE;
    assert(m1.segs@[j].contains_range(d2.block.addr as int, TRAMPOLINE_SIZE as int));
    assert(m1.range_in(d2.block.addr as int, TRAMPOLINE_SIZE as int));
    m1.lemma_range_narrow(d2.target as int, d2.fetch as int, d2.target + 5, d2.fetch - 5);
    m1.lemma_range_narrow(
        d2.block.addr as int,
        TRAMPOLINE_SIZE as int,
        d2.block.addr as int,
        d2.fetch as int,
    );
    m1.lemma_range_narrow(
        d2.block.addr as int,
        TRAMPOLINE_SIZE as int,
        d2.block.addr + d2.fetch,
        5,
    );
    m1.lemma_bytes_at_stable_if(m2, d2.target as int, 5);
    m1.lemma_bytes_at_stable_if(m2, d2.target + 5, (d2.fetch - 5) as nat);
    m1.lemma_bytes_at_stable_if(m2, d2.block.addr as int, d2.fetch as nat);
    m1.lemma_bytes_at_stable_if(m2, d2.block.addr + d2.fetch, 5);
    assert forall|i: int| 0 <= i < r2.regions@.len() implies (d2.target + d2.fetch <= (
    #[trigger] r2.regions@[i]).base || r2.regions@[i].base + DETOUR_REGION_SIZE <= d2.target) by {
        if i < r1.regions@.len() {
            assert(r1.regions@[i].base == r2.regions@[i].base);
        }
    }
}

/// The detour collection: the executable regions and the table of installed
/// hooks, keyed by resolved target address.
pub struct Detours {
    pub regions: Regions,
    pub detours: HashMap<u64, Detour>,
    pub targets: Vec<u64>,
}

impl Detours {
    /// The table as a map from target address to record.
    pub open spec fn table(self) -> Map<u64, Detour> {
        self.detours@
    }

    /// The whole collection is sound with respect to `mem`: the regions and
    /// every installed detour are, the target list mirrors the table's keys,
    /// no two detours share a slot or overlap in the target code, and every
    /// occupied slot belongs to exactly one live detour.
    pub open spec fn wf(self, mem: Memory) -> bool {
        &&& mem.wf()
        &&& self.regions.wf_with(mem)
        &&& self.targets@.no_duplicates()
        &&& forall|t: u64| self.table().contains_key(t) <==> #[trigger] self.targets@.contains(t)
        &&& forall|t: u64|
            #[trigger] self.table().contains_key(t) ==> self.table()[t].target == t && detour_ok(
                self.regions,
                mem,
                self.table()[t],
            )
        &&& forall|t1: u64, t2: u64|
            #![trigger self.table()[t1], self.table()[t2]]
            self.table().contains_key(t1) && self.table().contains_key(t2) && t1 != t2 ==> {
                let d1 = self.table()[t1];
                let d2 = self.table()[t2];
                &&& (d1.block.region_index != d2.block.region_index || d1.block.slot_index
                    != d2.block.slot_index)
                &&& (d1.target + d1.fetch <= d2.target || d2.target + d2.fetch <= d1.target)
            }
        &&& forall|i: int, j: int|
            0 <= i < self.regions.regions@.len() && 0 <= j < BLOCK_COUNT && (
            #[trigger] self.regions.regions@[i].state@[j]) ==> exists|t: u64|
                #[trigger] self.table().contains_key(t) && self.table()[t].block.region_index == i
                    && self.table()[t].block.slot_index == j
    }

    /// Every region is executable-read: what holds outside a guarded
    /// mutation window.
    pub open spec fn regions_locked(self, mem: Memory) -> bool {
        forall|x: int|
            #[trigger] self.regions.in_region_range(x) ==> mem.addr_in(x) && !mem.writable_at(x)
    }

    /// Every region is writable: what a guard establishes for the span of a
    /// mutation window.
    pub open spec fn regions_unlocked(self, mem: Memory) -> bool {
        forall|x: int|
            #[trigger] self.regions.in_region_range(x) ==> mem.addr_in(x) && mem.writable_at(x)
    }

    /// An empty collection: no regions, no hooks.
    pub fn new() -> (r: Detours)
        ensures
            r.table() == Map::<u64, Detour>::empty(),
            r.targets@ == Seq::<u64>::empty(),
            r.regions.regions@.len() == 0,
            r.regions.current is None,
            forall|mem: Memory| mem.wf() ==> r.wf(mem) && r.regions_locked(mem),
    {
        let r = Detours { regions: Regions::new(), detours: HashMap::new(), targets: Vec::new() };
        proof {
            assert forall|mem: Memory| mem.wf() implies r.wf(mem) && r.regions_locked(mem) by {
                assert(forall|t: u64| !r.table().contains_key(t));
                assert(forall|t: u64| !r.targets@.contains(t));
            }
        }
        r
    }

    /// A slot lies wholly inside its mapped region.
    proof fn lemma_slot_range(self, mem: Memory, ri: int, si: int)
        requires
            mem.wf(),
            self.regions.wf_with(mem),
            0 <= ri < self.regions.regions@.len(),
            0 <= si < BLOCK_COUNT,
        ensures
            mem.range_in(self.regions.regions@[ri].slot_addr(si), TRAMPOLINE_SIZE as int),
            forall|x: int|
                self.regions.regions@[ri].slot_addr(si) <= x < self.regions.regions@[ri].slot_addr(
                    si,
                ) + TRAMPOLINE_SIZE ==> #[trigger] self.regions.in_region_range(x),
    {
        let base = self.regions.regions@[ri].base;
        let j = choose|j: int|
            0 <= j < mem.segs@.len() && (#[trigger] mem.segs@[j]).base == base
                && mem.segs@[j].bytes@.len() == DETOUR_REGION_SIZE;
        assert(mem.segs@[j].contains_range(
            self.regions.regions@[ri].slot_addr(si),
            TRAMPOLINE_SIZE as int,
        ));
        assert forall|x: int|
            self.regions.regions@[ri].slot_addr(si) <= x < self.regions.regions@[ri].slot_addr(si)
                + TRAMPOLINE_SIZE implies #[trigger] self.regions.in_region_range(x) by {
            assert(self.regions.regions@[ri].base <= x < self.regions.regions@[ri].base
                + DETOUR_REGION_SIZE);
        }
    }

    /// Every per-detour claim survives a memory change that keeps the layout
    /// and every mapped byte (a protection flip).
    proof fn lemma_wf_bytes_stable(self, m0: Memory, m1: Memory)
        requires
            self.wf(m0),
            m1.wf(),
            self.regions.wf_with(m1),
            m1.segs@.len() == m0.segs@.len(),
            forall|t: int|
                0 <= t < m0.segs@.len() ==> (#[trigger] m1.segs@[t]).base == m0.segs@[t].base
                    && m1.segs@[t].bytes == m0.segs@[t].bytes,
            forall|x: int| m0.addr_in(x) ==> #[trigger] m1.byte_at(x) == m0.byte_at(x),
        ensures
            self.wf(m1),
    {
        m0.lemma_layout_stable(m1);
        assert forall|t: u64| #[trigger] self.table().contains_key(t) implies self.table()[
            t].target == t && detour_ok(self.regions, m1, self.table()[t]) by {
            let d = self.table()[t];
            assert(detour_ok(self.regions, m0, d));
            assert(m0.range_in(d.target as int, d.fetch as int));
            m0.lemma_range_narrow(
                d.target as int,
                d.fetch as int,
                d.target + 5,
                d.fetch - 5,
            );
            self.lemma_slot_range(m0, d.block.region_index as int, d.block.slot_index as int);
            m0.lemma_range_narrow(
                d.block.addr as int,
                TRAMPOLINE_SIZE as int,
                d.block.addr as int,
                d.fetch as int,
            );
            m0.lemma_range_narrow(
                d.block.addr as int,
                TRAMPOLINE_SIZE as int,
                d.block.addr + d.fetch,
                5,
            );
            m0.lemma_bytes_at_stable(m1, d.target as int, 5);
            m0.lemma_bytes_at_stable(m1, d.target + 5, (d.fetch - 5) as nat);
            m0.lemma_bytes_at_stable(m1, d.block.addr as int, d.fetch as nat);
            m0.lemma_bytes_at_stable(m1, d.block.addr + d.fetch, 5);
        }
    }

    /// Soundness transfers to any collection and memory with the very same
    /// views.
    proof fn lemma_wf_same_views(self, s2: Detours, m1: Memory, m2: Memory)
        requires
            self.wf(m1),
            s2.table() == self.table(),
            s2.targets@ == self.targets@,
            s2.regions.regions@ == self.regions.regions@,
            s2.regions.current == self.regions.current,
            m2.segs@ == m1.segs@,
        ensures
            s2.wf(m2),
            self.regions_unlocked(m1) ==> s2.regions_unlocked(m2),
            self.regions_locked(m1) ==> s2.regions_locked(m2),
    {
        m1.lemma_same_segs(m2);
        self.lemma_wf_bytes_stable(m1, m2);
        assert forall|t: u64| #[trigger] s2.table().contains_key(t) implies s2.table()[t].target
            == t && detour_ok(s2.regions, m2, s2.table()[t]) by {
            assert(self.table().contains_key(t));
            assert(detour_ok(self.regions, m2, self.table()[t]));
        }
        assert forall|i: int, j: int|
            0 <= i < s2.regions.regions@.len() && 0 <= j < BLOCK_COUNT && (
            #[trigger] s2.regions.regions@[i].state@[j]) implies exists|t: u64|
            #[trigger] s2.table().contains_key(t) && s2.table()[t].block.region_index == i
                && s2.table()[t].block.slot_index == j by {
            assert(self.regions.regions@[i].state@[j]);
        }
        if self.regions_unlocked(m1) {
            assert forall|x: int| #[trigger] s2.regions.in_region_range(x) implies m2.addr_in(x)
                && m2.writable_at(x) by {
                let i = choose|i: int|
                    0 <= i < s2.regions.regions@.len() && (#[trigger] s2.regions.regions@[i]).base
                        <= x < s2.regions.regions@[i].base + DETOUR_REGION_SIZE;
                assert(self.regions.regions@[i].base <= x < self.regions.regions@[i].base
                    + DETOUR_REGION_SIZE);
                assert(self.regions.in_region_range(x));
            }
        }
        if self.regions_locked(m1) {
            assert forall|x: int| #[trigger] s2.regions.in_region_range(x) implies m2.addr_in(x)
                && !m2.writable_at(x) by {
                let i = choose|i: int|
                    0 <= i < s2.regions.regions@.len() && (#[trigger] s2.regions.regions@[i]).base
                        <= x < s2.regions.regions@[i].base + DETOUR_REGION_SIZE;
                assert(self.regions.regions@[i].base <= x < self.regions.regions@[i].base
                    + DETOUR_REGION_SIZE);
                assert(self.regions.in_region_range(x));
            }
        }
    }

    /// Look up the installed detour for a (resolved) target address.
    pub fn get(&self, address: &u64) -> (r: Option<&Detour>)
        ensures
            match r {
                Some(d) => self.table().contains_key(*address) && *d == self.table()[*address],
                None => !self.table().contains_key(*address),
            },
    {
        self.detours.get(address)
    }

    /// Open a guarded mutation window: make every region writable and hand
    /// the collection to a guard. `DetoursGuard::finish` closes the window.
    pub fn lock(self, mem: &mut Memory) -> (r: Result<DetoursGuard, Error>)
        requires
            old(mem).wf(),
            self.wf(*old(mem)),
        ensures
            r is Ok,
            r matches Ok(g) ==> {
                &&& g.detours.table() == self.table()
                &&& g.detours.targets@ == self.targets@
                &&& g.detours.regions.regions@ == self.regions.regions@
                &&& g.detours.regions.current == self.regions.current
                &&& final(mem).wf()
                &&& g.detours.wf(*final(mem))
                &&& g.detours.regions_unlocked(*final(mem))
                &&& final(mem).dynamic_code_blocked == old(mem).dynamic_code_blocked
                &&& forall|x: int| final(mem).addr_in(x) == old(mem).addr_in(x)
                &&& forall|x: int|
                    old(mem).addr_in(x) ==> #[trigger] final(mem).byte_at(x) == old(mem).byte_at(x)
                &&& forall|x: int|
                    old(mem).addr_in(x) ==> #[trigger] final(mem).writable_at(x) == (
                    self.regions.in_region_range(x) || old(mem).writable_at(x))
            },
    {
        let ghost m0: Memory = *mem;
        let res = self.regions.unlock(mem);
        proof {
            self.lemma_wf_bytes_stable(m0, *mem);
            assert forall|x: int| #[trigger] self.regions.in_region_range(x) implies mem.addr_in(x)
                && mem.writable_at(x) by {
                let i = choose|i: int|
                    0 <= i < self.regions.regions@.len() && (#[trigger] self.regions.regions@[i]).base
                        <= x < self.regions.regions@[i].base + DETOUR_REGION_SIZE;
                self.lemma_slot_range(m0, i, 0);
                let base = self.regions.regions@[i].base;
                let j = choose|j: int|
                    0 <= j < m0.segs@.len() && (#[trigger] m0.segs@[j]).base == base
                        && m0.segs@[j].bytes@.len() == DETOUR_REGION_SIZE;
                assert(m0.segs@[j].contains(x));
                assert(m0.addr_in(x));
            }
        }
        Ok(DetoursGuard { detours: self })
    }
}

/// Law: the trampoline of every installed hook holds, byte for byte, the
/// prologue the target held before the hook — a prefix of at least five
/// bytes cut on instruction boundaries of the original code window.
pub proof fn lemma_trampoline_holds_original(s: Detours, mem: Memory, t: u64)
    requires
        s.wf(mem),
        s.table().contains_key(t),
    ensures
        ({
            let d = s.table()[t];
            &&& mem.bytes_at(d.block.addr as int, d.fetch as nat) == d.original@
            &&& d.original@ == d.window@.subrange(0, d.fetch as int)
            &&& fetch_rec(d.window@, d.target, 0) == Some(d.fetch as nat)
            &&& NEEDED_BYTES <= d.fetch
        }),
{
}

/// Law: for every installed hook, the five-byte jump written over the
/// target reaches the detour — its displacement fits a signed 32-bit
/// immediate — and those five bytes are what the target now holds.
pub proof fn lemma_detour_jump_reachable(s: Detours, mem: Memory, t: u64)
    requires
        s.wf(mem),
        s.table().contains_key(t),
    ensures
        ({
            let d = s.table()[t];
            &&& jmp_reachable(d.target as int, d.detour as int)
            &&& mem.bytes_at(d.target as int, 5) == jmp_bytes(d.target as int, d.detour as int)
        }),
{
}

/// Law: for every installed hook, the trampoline's tail jump reaches the
/// first byte of the target that was not relocated, and those five bytes
/// follow the relocated prologue in the slot.
pub proof fn lemma_trampoline_jump_reachable(s: Detours, mem: Memory, t: u64)
    requires
        s.wf(mem),
        s.table().contains_key(t),
    ensures
        ({
            let d = s.table()[t];
            &&& jmp_reachable(d.block.addr + d.fetch, d.target + d.fetch)
            &&& mem.bytes_at(d.block.addr + d.fetch, 5) == jmp_bytes(
                d.block.addr + d.fetch,
                d.target + d.fetch,
            )
        }),
{
}

/// Law: a slot is occupied exactly when one live hook owns it — no slot is
/// leaked and no slot is shared.
pub proof fn lemma_slot_ownership(s: Detours, mem: Memory, i: int, j: int)
    requires
        s.wf(mem),
        0 <= i < s.regions.regions@.len(),
        0 <= j < BLOCK_COUNT,
    ensures
        s.regions.regions@[i].state@[j] <==> exists|t: u64|
            #[trigger] s.table().contains_key(t) && s.table()[t].block.region_index == i
                && s.table()[t].block.slot_index == j,
        forall|t1: u64, t2: u64|
            #![trigger s.table()[t1], s.table()[t2]]
            (s.table().contains_key(t1) && s.table().contains_key(t2)
                && s.table()[t1].block.region_index == i && s.table()[t2].block.region_index == i
                && s.table()[t1].block.slot_index == j && s.table()[t2].block.slot_index == j)
                ==> t1 == t2,
{
    if exists|t: u64|
        #[trigger] s.table().contains_key(t) && s.table()[t].block.region_index == i && s.table()[
        t].block.slot_index == j {
        let t = choose|t: u64|
            #[trigger] s.table().contains_key(t) && s.table()[t].block.region_index == i
                && s.table()[t].block.slot_index == j;
        assert(detour_ok(s.regions, mem, s.table()[t]));
    }
}

/// The number of set flags in an occupancy bitmap.
pub open spec fn popcount(s: Seq<bool>) -> int
    decreases s.len(),
{
    if s.len() == 0 {
        0
    } else {
        popcount(s.drop_last()) + (if s[s.len() - 1] {
            1int
        } else {
            0int
        })
    }
}

/// The live hooks whose slots lie in region `i`.
pub open spec fn detours_in_region(s: Detours, i: int) -> Set<u64> {
    s.table().dom().filter(|t: u64| s.table()[t].block.region_index == i)
}

/// The live hooks whose slots lie in region `i` below slot `k`.
spec fn detours_in_region_below(s: Detours, i: int, k: int) -> Set<u64> {
    s.table().dom().filter(
        |t: u64| s.table()[t].block.region_index == i && s.table()[t].block.slot_index < k,
    )
}

/// The slot-by-slot induction behind the occupancy law: the set flags of
/// the first `k` slots match the hooks owning slots below `k`.
proof fn lemma_region_occupancy_below(s: Detours, mem: Memory, i: int, k: int)
    requires
        s.wf(mem),
        0 <= i < s.regions.regions@.len(),
        0 <= k <= BLOCK_COUNT,
    ensures
        detours_in_region_below(s, i, k).finite(),
        popcount(s.regions.regions@[i].state@.take(k)) == detours_in_region_below(s, i, k).len(),
    decreases k,
{
    vstd::std_specs::hash::axiom_hashmap_view_finite_dom(s.detours);
    s.table().dom().lemma_len_filter(
        |t: u64| s.table()[t].block.region_index == i && s.table()[t].block.slot_index < k,
    );
    let state = s.regions.regions@[i].state@;
    if k == 0 {
        assert(state.take(0).len() == 0);
        assert(detours_in_region_below(s, i, 0) =~= Set::<u64>::empty());
    } else {
        lemma_region_occupancy_below(s, mem, i, k - 1);
        assert(state.take(k).drop_last() =~= state.take(k - 1));
        let below = detours_in_region_below(s, i, k - 1);
        let upto = detours_in_region_below(s, i, k);
        if state[k - 1] {
            let t0 = choose|t0: u64|
                #[trigger] s.table().contains_key(t0) && s.table()[t0].block.region_index == i
                    && s.table()[t0].block.slot_index == k - 1;
            assert(upto =~= below.insert(t0)) by {
                assert forall|t: u64| upto.contains(t) implies below.insert(t0).contains(t) by {
                    if s.table()[t].block.slot_index == k - 1 {
                        assert(s.table()[t0].target == t0 && s.table()[t].target == t);
                        assert(t == t0);
                    }
                }
                assert forall|t: u64| below.insert(t0).contains(t) implies upto.contains(t) by {}
            }
            assert(!below.contains(t0));
            vstd::set::axiom_set_insert_len(below, t0);
        } else {
            assert(upto =~= below) by {
                assert forall|t: u64| upto.contains(t) implies below.contains(t) by {
                    if s.table()[t].block.slot_index == k - 1 {
                        assert(detour_ok(s.regions, mem, s.table()[t]));
                    }
                }
            }
        }
    }
}

/// Law: in every region, the number of set occupancy flags equals the
/// number of live hooks whose slot lies in that region.
pub proof fn lemma_region_occupancy(s: Detours, mem: Memory, i: int)
    requires
        s.wf(mem),
        0 <= i < s.regions.regions@.len(),
    ensures
        popcount(s.regions.regions@[i].state@) == detours_in_region(s, i).len(),
{
    lemma_region_occupancy_below(s, mem, i, BLOCK_COUNT as int);
    assert(s.regions.regions@[i].state@.take(BLOCK_COUNT as int) =~= s.regions.regions@[i].state@);
    assert(detours_in_region_below(s, i, BLOCK_COUNT as int) =~= detours_in_region(s, i)) by {
        assert forall|t: u64| detours_in_region(s, i).contains(t) implies detours_in_region_below(
            s,
            i,
            BLOCK_COUNT as int,
        ).contains(t) by {
            assert(detour_ok(s.regions, mem, s.table()[t]));
        }
    }
}

/// The sum of every region's set occupancy flags.
pub open spec fn total_popcount(rs: Seq<crate::mem::RegionData>) -> int
    decreases rs.len(),
{
    if rs.len() == 0 {
        0
    } else {
        total_popcount(rs.drop_last()) + popcount(rs.last().state@)
    }
}

/// Disjoint finite sets add their sizes under union.
proof fn lemma_disjoint_union_len<A>(s1: Set<A>, s2: Set<A>)
    requires
        s1.finite(),
        s2.finite(),
        s1.disjoint(s2),
    ensures
        s1.union(s2).finite(),
        s1.union(s2).len() == s1.len() + s2.len(),
    decreases s2.len(),
{
    vstd::set::axiom_set_union_finite(s1, s2);
    if s2.len() == 0 {
        vstd::set_lib::lemma_set_empty_equivalency_len(s2);
        assert(s1.union(s2) =~= s1);
    } else {
        vstd::set_lib::lemma_set_empty_equivalency_len(s2);
        let a = s2.choose();
        assert(s2.contains(a));
        assert(s1.union(s2.remove(a)) =~= s1.union(s2).remove(a));
        lemma_disjoint_union_len(s1, s2.remove(a));
        vstd::set::axiom_set_remove_len(s2, a);
        vstd::set::axiom_set_remove_len(s1.union(s2), a);
    }
}

/// The slot-prefix induction behind the whole-collection occupancy law.
proof fn lemma_total_occupancy_rec(s: Detours, mem: Memory, k: int)
    requires
        s.wf(mem),
        0 <= k <= s.regions.regions@.len(),
    ensures
        s.table().dom().filter(
            |t: u64| s.table()[t].block.region_index < k,
        ).finite(),
        total_popcount(s.regions.regions@.take(k)) == s.table().dom().filter(
            |t: u64| s.table()[t].block.region_index < k,
        ).len(),
    decreases k,
{
    vstd::std_specs::hash::axiom_hashmap_view_finite_dom(s.detours);
    s.table().dom().lemma_len_filter(|t: u64| s.table()[t].block.region_index < k);
    let below = s.table().dom().filter(|t: u64| s.table()[t].block.region_index < k);
    if k == 0 {
        assert(s.regions.regions@.take(0).len() == 0);
        assert(below =~= Set::<u64>::empty());
    } else {
        lemma_total_occupancy_rec(s, mem, k - 1);
        lemma_region_occupancy(s, mem, k - 1);
        assert(s.regions.regions@.take(k).drop_last() =~= s.regions.regions@.take(k - 1));
        assert(s.regions.regions@.take(k).last() == s.regions.regions@[k - 1]);
        let prev = s.table().dom().filter(|t: u64| s.table()[t].block.region_index < k - 1);
        let here = detours_in_region(s, k - 1);
        assert(below =~= prev.union(here));
        assert(prev.disjoint(here));
        lemma_disjoint_union_len(prev, here);
    }
}

/// Law: across the whole collection, the number of set occupancy flags
/// equals the number of installed hooks — so an operation that keeps the
/// table's keys (a re-attach, for one) keeps the net occupancy.
pub proof fn lemma_total_occupancy(s: Detours, mem: Memory)
    requires
        s.wf(mem),
    ensures
        total_popcount(s.regions.regions@) == s.table().dom().len(),
{
    let n = s.regions.regions@.len() as int;
    lemma_total_occupancy_rec(s, mem, n);
    assert(s.regions.regions@.take(n) =~= s.regions.regions@);
    vstd::std_specs::hash::axiom_hashmap_view_finite_dom(s.detours);
    assert(s.table().dom().filter(|t: u64| s.table()[t].block.region_index < n) =~= s.table().dom()) by {
        assert forall|t: u64| s.table().dom().contains(t) implies s.table().dom().filter(
            |t2: u64| s.table()[t2].block.region_index < n,
        ).contains(t) by {
            assert(s.table().contains_key(t));
            assert(detour_ok(s.regions, mem, s.table()[t]));
        }
    }
}

/// Law: every region lies within reach of every target hooked through one
/// of its slots — any address of the slot's region is within a signed
/// 32-bit displacement of the hook's continuation point.
pub proof fn lemma_region_in_reach(s: Detours, mem: Memory, t: u64)
    requires
        s.wf(mem),
        s.table().contains_key(t),
    ensures
        slot_in_reach(s.table()[t].target as int, s.table()[t].block.addr as int),
{
}

/// Perform the three writes of an installation: the relocated prologue `w`
/// into the slot, the trampoline tail jump `tail` after it, and — under a
/// scoped protection flip that is restored before returning — the five-byte
/// jump `jmpd` over the target's entry.
fn apply_patch(
    mem: &mut Memory,
    block: Block,
    rt: u64,
    fetch: usize,
    w: &Vec<u8>,
    tail: &Vec<u8>,
    jmpd: &Vec<u8>,
)
    requires
        old(mem).wf(),
        NEEDED_BYTES <= fetch < NEEDED_BYTES + MAX_INST_LEN,
        w@.len() == fetch,
        tail@.len() == 5,
        jmpd@.len() == 5,
        old(mem).range_in(block.addr as int, TRAMPOLINE_SIZE as int),
        old(mem).writable_at(block.addr as int),
        block.addr + TRAMPOLINE_SIZE <= u64::MAX as int + 1,
        old(mem).range_in(rt as int, fetch as int),
        fetch as int <= u64::MAX - rt,
        rt + fetch <= block.addr || block.addr + TRAMPOLINE_SIZE <= rt,
    ensures
        final(mem).wf(),
        final(mem).dynamic_code_blocked == old(mem).dynamic_code_blocked,
        final(mem).segs@.len() == old(mem).segs@.len(),
        forall|t: int|
            0 <= t < old(mem).segs@.len() ==> (#[trigger] final(mem).segs@[t]).base == old(
                mem,
            ).segs@[t].base && final(mem).segs@[t].bytes@.len() == old(mem).segs@[t].bytes@.len(),
        forall|x: int| final(mem).addr_in(x) == old(mem).addr_in(x),
        forall|x: int|
            old(mem).addr_in(x) ==> #[trigger] final(mem).writable_at(x) == old(mem).writable_at(
                x,
            ),
        forall|x: int|
            old(mem).addr_in(x) ==> #[trigger] final(mem).byte_at(x) == (if rt <= x < rt + 5 {
                jmpd@[x - rt]
            } else if block.addr <= x < block.addr + fetch {
                w@[x - block.addr]
            } else if block.addr + fetch <= x < block.addr + fetch + 5 {
                tail@[x - (block.addr + fetch)]
            } else {
                old(mem).byte_at(x)
            }),
{
    let ghost m2: Memory = *mem;
    proof {
        // The tail write lands in the same (writable) segment as the slot.
        let i0 = choose|i0: int|
            0 <= i0 < m2.segs@.len() && (#[trigger] m2.segs@[i0]).contains_range(
                block.addr as int,
                TRAMPOLINE_SIZE as int,
            );
        assert(m2.segs@[i0].contains(block.addr as int));
        assert(m2.segs@[i0].contains(block.addr + fetch));
        m2.lemma_unique_seg(block.addr as int, i0, m2.idx_of(block.addr as int));
        m2.lemma_unique_seg(block.addr + fetch, i0, m2.idx_of(block.addr + fetch));
        m2.lemma_range_narrow(
            block.addr as int,
            TRAMPOLINE_SIZE as int,
            block.addr as int,
            fetch as int,
        );
        m2.lemma_range_narrow(
            block.addr as int,
            TRAMPOLINE_SIZE as int,
            block.addr + fetch,
            5,
        );
    }
    let ok1 = mem.write_bytes(block.addr, w);
    let ghost m3: Memory = *mem;
    proof {
        m2.lemma_layout_stable(m3);
        assert(m3.writable_at(block.addr + fetch) == m2.writable_at(block.addr + fetch));
    }
    let ok2 = mem.write_bytes(block.addr + fetch as u64, tail);
    let ghost m4: Memory = *mem;
    proof {
        m3.lemma_layout_stable(m4);
    }
    let protector = match MemoryProtector::new(mem, rt, fetch) {
        Err(_) => {
            proof {
                assert(false);
            }
            return ;
        },
        Ok(p) => p,
    };
    let ghost m5: Memory = *mem;
    proof {
        m4.lemma_layout_stable(m5);
        m2.lemma_range_narrow(rt as int, fetch as int, rt as int, 5);
    }
    let written = protector.write_override(mem, jmpd);
    let ghost m6: Memory = *mem;
    let res = protector.restore(mem);
    proof {
        let mf = *mem;
        m5.lemma_layout_stable(m6);
        m6.lemma_layout_stable(mf);
        assert forall|t: int| 0 <= t < m2.segs@.len() implies (#[trigger] mf.segs@[t]).base
            == m2.segs@[t].base && mf.segs@[t].bytes@.len() == m2.segs@[t].bytes@.len() by {
            assert(m3.segs@[t].base == m2.segs@[t].base && m3.segs@[t].bytes@.len()
                == m2.segs@[t].bytes@.len());
            assert(m4.segs@[t].base == m3.segs@[t].base && m4.segs@[t].bytes@.len()
                == m3.segs@[t].bytes@.len());
            assert(m5.segs@[t].base == m4.segs@[t].base && m5.segs@[t].bytes@.len()
                == m4.segs@[t].bytes@.len());
            assert(m6.segs@[t].base == m5.segs@[t].base && m6.segs@[t].bytes@.len()
                == m5.segs@[t].bytes@.len());
        }
        assert forall|x: int| m2.addr_in(x) implies #[trigger] mf.writable_at(x)
            == m2.writable_at(x) by {
            assert(m3.writable_at(x) == m2.writable_at(x));
            assert(m4.writable_at(x) == m3.writable_at(x));
            if m4.idx_of(x) == m4.idx_of(rt as int) {
                assert(m4.writable_at(x) == m4.writable_at(rt as int));
                assert(m5.idx_of(x) == m4.idx_of(x));
                assert(m6.idx_of(x) == m5.idx_of(x));
                assert(m5.writable_at(x) == true);
                assert(m6.writable_at(x) == m5.writable_at(x));
                assert(mf.writable_at(x) == (protector.old_flag
                    == crate::memory::PAGE_FLAG_EXECUTE_READWRITE));
            } else {
                assert(m5.idx_of(x) == m4.idx_of(x));
                assert(m5.idx_of(rt as int) == m4.idx_of(rt as int));
                assert(m5.writable_at(x) == m4.writable_at(x));
                assert(m6.writable_at(x) == m5.writable_at(x));
                assert(m6.idx_of(x) == m5.idx_of(x));
                assert(m6.idx_of(rt as int) == m5.idx_of(rt as int));
                assert(mf.writable_at(x) == m6.writable_at(x));
            }
        }
        assert forall|x: int| m2.addr_in(x) implies #[trigger] mf.byte_at(x) == (if rt <= x < rt
            + 5 {
            jmpd@[x - rt]
        } else if block.addr <= x < block.addr + fetch {
            w@[x - block.addr]
        } else if block.addr + fetch <= x < block.addr + fetch + 5 {
            tail@[x - (block.addr + fetch)]
        } else {
            m2.byte_at(x)
        }) by {
            assert(m3.byte_at(x) == (if block.addr <= x < block.addr + fetch {
                w@[x - block.addr]
            } else {
                m2.byte_at(x)
            }));
            assert(m4.byte_at(x) == (if block.addr + fetch <= x < block.addr + fetch + 5 {
                tail@[x - (block.addr + fetch)]
            } else {
                m3.byte_at(x)
            }));
            assert(m5.byte_at(x) == m4.byte_at(x));
            assert(m6.byte_at(x) == (if rt <= x < rt + 5 {
                jmpd@[x - rt]
            } else {
                m5.byte_at(x)
            }));
            assert(mf.byte_at(x) == m6.byte_at(x));
        }
    }
}

/// Everything a successful installation needs from the world: the resolved
/// target is not hooked, its prologue is fetchable and fits the address
/// space, the resolved detour is jump-reachable, the hook collides with no
/// region and no installed hook, and a slot is obtainable — from the
/// cursor's hinted slot or from a fresh region placement.
pub open spec fn spec_install_viable(s: Detours, mem: Memory, rt: u64, rd: u64) -> bool {
    match spec_prologue_fetch(mem, rt) {
        None => false,
        Some(f) => {
            let bounds = spec_find_jmp_bounds(crate::inst::spec_decode_at(mem, rt, 0xe));
            &&& rt + f <= u64::MAX
            &&& jmp_reachable(rt as int, rd as int)
            &&& (forall|i: int|
                0 <= i < s.regions.regions@.len() ==> (rt + f <= (
                #[trigger] s.regions.regions@[i]).base || s.regions.regions@[i].base
                    + DETOUR_REGION_SIZE <= rt))
            &&& (forall|t2: u64|
                #[trigger] s.table().contains_key(t2) ==> (s.table()[t2].target + s.table()[
                t2].fetch <= rt || rt + f <= s.table()[t2].target))
            &&& (spec_fast_slot(s.regions, mem, rt) is Some || spec_allocate_new(
                mem,
                spec_round_down(rt as int),
                bounds.0,
                bounds.1,
            ) is Some)
        },
    }
}

/// A fetchable prologue stays fetchable, with the same length, across an
/// allocation that keeps every mapped byte: the target was mapped before,
/// so its window is untouched.
#[verifier::spinoff_prover]
proof fn lemma_fetch_some_stable(
    s1: Detours,
    s2: Detours,
    m1: Memory,
    m2: Memory,
    block: Block,
    rt: u64,
)
    requires
        m1.wf(),
        m2.wf(),
        alloc_block_post(s1.regions, s2.regions, m1, m2, rt, block),
        mem_preserved(m1, m2),
        spec_prologue_fetch(m1, rt) is Some,
    ensures
        spec_prologue_fetch(m2, rt) == spec_prologue_fetch(m1, rt),
{
    assert(m1.addr_in(rt as int));
    assert forall|j: int| 0 <= j < m1.segs@.len() implies exists|j2: int|
        0 <= j2 < m2.segs@.len() && (#[trigger] m2.segs@[j2]).base == (
        #[trigger] m1.segs@[j]).base && m2.segs@[j2].bytes@.len()
        == m1.segs@[j].bytes@.len() by {
        if block.region_index >= s1.regions.regions@.len() {
            let pb = s2.regions.regions@[block.region_index as int].base;
            assert(fresh_region_at(m1, m2, pb));
        } else {
            assert(m2.segs@[j] == m1.segs@[j]);
        }
    }
    m1.lemma_window_stable(m2, rt, PREFETCH_INST_SIZE as int);
}

/// When the post-allocation window at a target cannot supply a prologue,
/// neither could the pre-allocation one: the allocation changed no mapped
/// byte and no mapped window.
#[verifier::spinoff_prover]
proof fn lemma_fetch_none_stable(
    s1: Detours,
    s2: Detours,
    m1: Memory,
    m2: Memory,
    block: Block,
    rt: u64,
)
    requires
        m1.wf(),
        m2.wf(),
        alloc_block_post(s1.regions, s2.regions, m1, m2, rt, block),
        mem_preserved(m1, m2),
        spec_prologue_fetch(m2, rt) is None,
    ensures
        spec_prologue_fetch(m1, rt) is None,
{
    if m1.addr_in(rt as int) {
        assert forall|j: int| 0 <= j < m1.segs@.len() implies exists|j2: int|
            0 <= j2 < m2.segs@.len() && (#[trigger] m2.segs@[j2]).base == (
            #[trigger] m1.segs@[j]).base && m2.segs@[j2].bytes@.len()
            == m1.segs@[j].bytes@.len() by {
            if block.region_index >= s1.regions.regions@.len() {
                let pb = s2.regions.regions@[block.region_index as int].base;
                assert(fresh_region_at(m1, m2, pb));
            } else {
                assert(m2.segs@[j] == m1.segs@[j]);
            }
        }
        m1.lemma_window_stable(m2, rt, PREFETCH_INST_SIZE as int);
    }
}

/// Removing the one occurrence of `v` from a duplicate-free sequence keeps
/// it duplicate-free and removes exactly `v` from its contents.
proof fn lemma_targets_remove(s: Seq<u64>, k: int, v: u64)
    requires
        s.no_duplicates(),
        0 <= k < s.len(),
        s[k] == v,
    ensures
        s.remove(k).no_duplicates(),
        forall|t: u64| #[trigger] s.remove(k).contains(t) <==> (s.contains(t) && t != v),
{
    let r = s.remove(k);
    assert(forall|i: int| 0 <= i < k ==> r[i] == s[i]);
    assert(forall|i: int| k <= i < r.len() ==> r[i] == s[i + 1]);
    assert forall|i: int, j: int| 0 <= i < j < r.len() implies r[i] != r[j] by {
        let i2: int = if i < k {
            i
        } else {
            i + 1
        };
        let j2: int = if j < k {
            j
        } else {
            j + 1
        };
        assert(s[i2] != s[j2]);
    }
    assert forall|t: u64| #[trigger] r.contains(t) <==> (s.contains(t) && t != v) by {
        if r.contains(t) {
            let i = choose|i: int| 0 <= i < r.len() && r[i] == t;
            let i2: int = if i < k {
                i
            } else {
                i + 1
            };
            assert(s[i2] == t);
            assert(s.contains(t));
            assert(i2 != k);
            assert(t != v);
        }
        if s.contains(t) && t != v {
            let i = choose|i: int| 0 <= i < s.len() && s[i] == t;
            assert(i != k);
            let i2: int = if i < k {
                i
            } else {
                i - 1
            };
            assert(r[i2] == t);
            assert(r.contains(t));
        }
    }
}

/// Appending a fresh element to a duplicate-free sequence keeps it
/// duplicate-free and adds exactly that element to its contents.
proof fn lemma_targets_push(s: Seq<u64>, v: u64)
    requires
        s.no_duplicates(),
        !s.contains(v),
    ensures
        s.push(v).no_duplicates(),
        forall|t: u64| #[trigger] s.push(v).contains(t) <==> (s.contains(t) || t == v),
{
    let r = s.push(v);
    assert forall|i: int, j: int| 0 <= i < j < r.len() implies r[i] != r[j] by {
        if j == r.len() - 1 {
            assert(r[i] == s[i]);
            if s[i] == v {
                assert(s.contains(v));
            }
        }
    }
    assert forall|t: u64| #[trigger] r.contains(t) <==> (s.contains(t) || t == v) by {
        if r.contains(t) {
            let i = choose|i: int| 0 <= i < r.len() && r[i] == t;
            if i < s.len() {
                assert(s.contains(t));
            }
        }
        if s.contains(t) {
            let i = choose|i: int| 0 <= i < s.len() && s[i] == t;
            assert(r[i] == t);
        }
        if t == v {
            assert(r[r.len() - 1] == t);
        }
    }
}

/// A guarded mutation window over a [`Detours`] collection: while it is
/// open, the regions are writable and hooks can be attached and detached;
/// `finish` relocks the regions and returns the collection.
pub struct DetoursGuard {
    pub detours: Detours,
}

impl DetoursGuard {
    /// Close the mutation window: every region goes back to
    /// executable-read (where the instruction cache would be flushed on a
    /// real machine), and the collection is handed back.
    pub fn finish(self, mem: &mut Memory) -> (r: Detours)
        requires
            old(mem).wf(),
            self.detours.wf(*old(mem)),
        ensures
            final(mem).wf(),
            r.wf(*final(mem)),
            r.regions_locked(*final(mem)),
            r.table() == self.detours.table(),
            r.targets@ == self.detours.targets@,
            r.regions.regions@ == self.detours.regions.regions@,
            final(mem).dynamic_code_blocked == old(mem).dynamic_code_blocked,
            forall|x: int| final(mem).addr_in(x) == old(mem).addr_in(x),
            forall|x: int|
                old(mem).addr_in(x) ==> #[trigger] final(mem).byte_at(x) == old(mem).byte_at(x),
            forall|x: int|
                old(mem).addr_in(x) ==> #[trigger] final(mem).writable_at(x) == (!self
                    .detours.regions.in_region_range(x) && old(mem).writable_at(x)),
    {
        let ghost m0: Memory = *mem;
        let res = self.detours.regions.lock(mem);
        proof {
            self.detours.lemma_wf_bytes_stable(m0, *mem);
            assert forall|x: int| #[trigger] self.detours.regions.in_region_range(x) implies mem
                .addr_in(x) && !mem.writable_at(x) by {
                let i = choose|i: int|
                    0 <= i < self.detours.regions.regions@.len() && (
                    #[trigger] self.detours.regions.regions@[i]).base <= x
                        < self.detours.regions.regions@[i].base + DETOUR_REGION_SIZE;
                let base = self.detours.regions.regions@[i].base;
                let j = choose|j: int|
                    0 <= j < m0.segs@.len() && (#[trigger] m0.segs@[j]).base == base
                        && m0.segs@[j].bytes@.len() == DETOUR_REGION_SIZE;
                assert(m0.segs@[j].contains(x));
                assert(m0.addr_in(x));
            }
        }
        self.detours
    }

    /// Install a hook: resolve both addresses through common thunks, replace
    /// any hook already at the resolved target, obtain a reachable
    /// trampoline slot, relocate the target's prologue into it, append the
    /// jump back, and overwrite the target's first five bytes with a jump to
    /// the detour — all or nothing.
    #[verifier::rlimit(100)]
    #[verifier::spinoff_prover]
    pub fn attach(&mut self, mem: &mut Memory, target_raw: u64, detour_raw: u64) -> (r: Result<
        (),
        Error,
    >)
        requires
            old(mem).wf(),
            old(self).detours.wf(*old(mem)),
            old(self).detours.regions_unlocked(*old(mem)),
        ensures
            final(mem).wf(),
            final(self).detours.wf(*final(mem)),
            final(self).detours.regions_unlocked(*final(mem)),
            final(mem).dynamic_code_blocked == old(mem).dynamic_code_blocked,
            r is Ok || r == Err::<(), Error>(Error::InvalidAddress) || r == Err::<(), Error>(
                Error::NotEnoughMemory,
            ),
            (target_raw == 0 || detour_raw == 0) ==> r == Err::<(), Error>(Error::InvalidAddress)
                && *final(self) == *old(self) && *final(mem) == *old(mem),
            ({
                let rt = spec_skip_jmp(*old(mem), spec_decode_at(*old(mem), target_raw, 0xe));
                let rd = spec_skip_jmp(*old(mem), spec_decode_at(*old(mem), detour_raw, 0xe));
                &&& (target_raw != 0 && detour_raw != 0 && rt == rd ==> r == Err::<(), Error>(
                    Error::InvalidAddress,
                ) && *final(self) == *old(self) && *final(mem) == *old(mem))
                &&& (target_raw != 0 && detour_raw != 0 && rt != rd ==> {
                    let rt64 = rt as u64;
                    let rd64 = rd as u64;
                    &&& (r is Ok <==> final(self).detours.table().contains_key(rt64))
                    &&& forall|t: u64|
                        t != rt64 ==> (#[trigger] final(self).detours.table().contains_key(t)
                            == old(self).detours.table().contains_key(t)) && (old(
                            self,
                        ).detours.table().contains_key(t) ==> final(self).detours.table()[t] == old(
                            self,
                        ).detours.table()[t])
                    &&& (r is Ok ==> {
                        let d = final(self).detours.table()[rt64];
                        &&& d.target == rt64
                        &&& d.detour == rd64
                        &&& NEEDED_BYTES <= d.fetch < NEEDED_BYTES + MAX_INST_LEN
                        &&& (!old(self).detours.table().contains_key(rt64) ==> Some(d.fetch as nat)
                            == spec_prologue_fetch(*old(mem), rt64) && d.original@ == old(
                            mem,
                        ).bytes_at(rt, d.fetch as nat))
                        &&& (!old(self).detours.table().contains_key(rt64) ==> forall|x: int|
                            old(mem).addr_in(x) && !(rt <= x < rt + d.fetch)
                                && !final(self).detours.regions.in_region_range(x)
                                ==> #[trigger] final(mem).byte_at(x) == old(mem).byte_at(x))
                    })
                    &&& (!old(self).detours.table().contains_key(rt64) && spec_prologue_fetch(
                        *old(mem),
                        rt64,
                    ) is None ==> r is Err)
                    &&& (!old(self).detours.table().contains_key(rt64) && spec_prologue_fetch(
                        *old(mem),
                        rt64,
                    ) is Some && !jmp_reachable(rt, rd) ==> r == Err::<(), Error>(
                        Error::NotEnoughMemory,
                    ))
                    &&& (old(self).detours.regions.regions@.len() == 0 && old(
                        mem,
                    ).dynamic_code_blocked ==> r == Err::<(), Error>(Error::NotEnoughMemory)
                        && final(self).detours.regions.regions@.len() == 0 && final(mem).segs@
                        == old(mem).segs@)
                    &&& (!old(self).detours.table().contains_key(rt64) && spec_install_viable(
                        old(self).detours,
                        *old(mem),
                        rt64,
                        rd64,
                    ) ==> r is Ok)
                    &&& (!old(self).detours.table().contains_key(rt64) && old(
                        mem,
                    ).dynamic_code_blocked && spec_fast_slot(
                        old(self).detours.regions,
                        *old(mem),
                        rt64,
                    ) is None ==> r == Err::<(), Error>(Error::NotEnoughMemory)
                        && final(self).detours.regions.regions@
                        == old(self).detours.regions.regions@ && final(mem).segs@ == old(
                        mem,
                    ).segs@)
                    &&& (r is Err && !old(self).detours.table().contains_key(rt64)
                        ==> forall|x: int|
                        old(mem).addr_in(x) ==> #[trigger] final(mem).byte_at(x) == old(
                            mem,
                        ).byte_at(x))
                    &&& (r is Err && old(self).detours.table().contains_key(rt64) ==> ({
                        let dd = old(self).detours.table()[rt64];
                        forall|x: int|
                            old(mem).addr_in(x) ==> #[trigger] final(mem).byte_at(x)
                                == if dd.target <= x < dd.target + dd.fetch {
                                dd.original@[x - dd.target]
                            } else {
                                old(mem).byte_at(x)
                            }
                    }))
                })
            }),
            forall|x: int|
                old(mem).addr_in(x) ==> #[trigger] final(mem).writable_at(x) == old(
                    mem,
                ).writable_at(x),
    {
        if target_raw == 0 || detour_raw == 0 {
            return Err(Error::InvalidAddress);
        }
        let inst_t = decode_instruction(mem, target_raw, 0xe);
        let rt = detour_skip_jmp(mem, &inst_t);
        let inst_d = decode_instruction(mem, detour_raw, 0xe);
        let rd = detour_skip_jmp(mem, &inst_d);
        if rt == rd {
            return Err(Error::InvalidAddress);
        }
        self.attach_resolved(mem, rt, rd)
    }

    /// Install a hook at the already-resolved target address `rt`, jumping
    /// to the already-resolved detour `rd`.
    #[verifier::rlimit(100)]
    #[verifier::spinoff_prover]
    fn attach_resolved(&mut self, mem: &mut Memory, rt: u64, rd: u64) -> (r: Result<(), Error>)
        requires
            old(mem).wf(),
            old(self).detours.wf(*old(mem)),
            old(self).detours.regions_unlocked(*old(mem)),
        ensures
            final(mem).wf(),
            final(self).detours.wf(*final(mem)),
            final(self).detours.regions_unlocked(*final(mem)),
            final(mem).dynamic_code_blocked == old(mem).dynamic_code_blocked,
            r is Ok || r == Err::<(), Error>(Error::InvalidAddress) || r == Err::<(), Error>(
                Error::NotEnoughMemory,
            ),
            r is Ok <==> final(self).detours.table().contains_key(rt),
            forall|t: u64|
                t != rt ==> (#[trigger] final(self).detours.table().contains_key(t) == old(
                    self,
                ).detours.table().contains_key(t)) && (old(self).detours.table().contains_key(t)
                    ==> final(self).detours.table()[t] == old(self).detours.table()[t]),
            r is Ok ==> ({
                let d = final(self).detours.table()[rt];
                &&& d.target == rt
                &&& d.detour == rd
                &&& NEEDED_BYTES <= d.fetch < NEEDED_BYTES + MAX_INST_LEN
                &&& (!old(self).detours.table().contains_key(rt) ==> Some(d.fetch as nat)
                    == spec_prologue_fetch(*old(mem), rt) && d.original@ == old(mem).bytes_at(
                    rt as int,
                    d.fetch as nat,
                ))
                &&& (!old(self).detours.table().contains_key(rt) ==> forall|x: int|
                    old(mem).addr_in(x) && !(rt <= x < rt + d.fetch)
                        && !final(self).detours.regions.in_region_range(x)
                        ==> #[trigger] final(mem).byte_at(x) == old(mem).byte_at(x))
            }),
            !old(self).detours.table().contains_key(rt) && spec_prologue_fetch(*old(mem), rt)
                is None ==> r is Err,
            !old(self).detours.table().contains_key(rt) && spec_prologue_fetch(*old(mem), rt)
                is Some && !jmp_reachable(rt as int, rd as int) ==> r == Err::<(), Error>(
                Error::NotEnoughMemory,
            ),
            old(self).detours.regions.regions@.len() == 0 && old(mem).dynamic_code_blocked ==> r
                == Err::<(), Error>(Error::NotEnoughMemory)
                && final(self).detours.regions.regions@.len() == 0 && final(mem).segs@ == old(
                mem,
            ).segs@,
            !old(self).detours.table().contains_key(rt) && spec_install_viable(
                old(self).detours,
                *old(mem),
                rt,
                rd,
            ) ==> r is Ok,
            !old(self).detours.table().contains_key(rt) && old(mem).dynamic_code_blocked
                && spec_fast_slot(old(self).detours.regions, *old(mem), rt) is None ==> r
                == Err::<(), Error>(Error::NotEnoughMemory)
                && final(self).detours.regions.regions@ == old(self).detours.regions.regions@
                && final(mem).segs@ == old(mem).segs@,
            forall|x: int|
                old(mem).addr_in(x) ==> #[trigger] final(mem).writable_at(x) == old(
                    mem,
                ).writable_at(x),
            r is Err && !old(self).detours.table().contains_key(rt) ==> forall|x: int|
                old(mem).addr_in(x) ==> #[trigger] final(mem).byte_at(x) == old(mem).byte_at(x),
            r is Err && old(self).detours.table().contains_key(rt) ==> ({
                let dd = old(self).detours.table()[rt];
                forall|x: int|
                    old(mem).addr_in(x) ==> #[trigger] final(mem).byte_at(x) == if dd.target <= x
                        < dd.target + dd.fetch {
                        dd.original@[x - dd.target]
                    } else {
                        old(mem).byte_at(x)
                    }
            }),
    {
        let ghost s0: Detours = self.detours;
        let ghost m0: Memory = *mem;
        // Replace an existing hook at the same resolved target.
        self.detach(mem, &rt);
        let ghost s1: Detours = self.detours;
        let ghost m1: Memory = *mem;
        let r = self.install_hook(mem, rt, rd);
        proof {
            if !s0.table().contains_key(rt) {
                assert(s1 == s0 && m1 == m0);
            }
            if s0.regions.regions@.len() == 0 && m0.dynamic_code_blocked {
                assert(s1.regions.regions@.len() == 0);
            }
        }
        r
    }

    /// Place the hook for `rt` (not currently hooked): take a slot, relocate
    /// the prologue, write the trampoline tail and the target jump, and
    /// record the result.
    #[verifier::rlimit(100)]
    #[verifier::spinoff_prover]
    fn install_hook(&mut self, mem: &mut Memory, rt: u64, rd: u64) -> (r: Result<(), Error>)
        requires
            old(mem).wf(),
            old(self).detours.wf(*old(mem)),
            old(self).detours.regions_unlocked(*old(mem)),
            !old(self).detours.table().contains_key(rt),
        ensures
            final(mem).wf(),
            final(self).detours.wf(*final(mem)),
            final(self).detours.regions_unlocked(*final(mem)),
            final(mem).dynamic_code_blocked == old(mem).dynamic_code_blocked,
            r is Ok || r == Err::<(), Error>(Error::InvalidAddress) || r == Err::<(), Error>(
                Error::NotEnoughMemory,
            ),
            r is Ok <==> final(self).detours.table().contains_key(rt),
            forall|t: u64|
                t != rt ==> (#[trigger] final(self).detours.table().contains_key(t) == old(
                    self,
                ).detours.table().contains_key(t)) && (old(self).detours.table().contains_key(t)
                    ==> final(self).detours.table()[t] == old(self).detours.table()[t]),
            r is Ok ==> ({
                let d = final(self).detours.table()[rt];
                &&& d.target == rt
                &&& d.detour == rd
                &&& NEEDED_BYTES <= d.fetch < NEEDED_BYTES + MAX_INST_LEN
                &&& Some(d.fetch as nat) == spec_prologue_fetch(*old(mem), rt)
                &&& d.original@ == old(mem).bytes_at(rt as int, d.fetch as nat)
                &&& forall|x: int|
                    old(mem).addr_in(x) && !(rt <= x < rt + d.fetch)
                        && !final(self).detours.regions.in_region_range(x)
                        ==> #[trigger] final(mem).byte_at(x) == old(mem).byte_at(x)
            }),
            spec_prologue_fetch(*old(mem), rt) is None ==> r is Err,
            spec_prologue_fetch(*old(mem), rt) is Some && !jmp_reachable(rt as int, rd as int)
                ==> r == Err::<(), Error>(Error::NotEnoughMemory),
            old(self).detours.regions.regions@.len() == 0 && old(mem).dynamic_code_blocked ==> r
                == Err::<(), Error>(Error::NotEnoughMemory)
                && final(self).detours.regions.regions@.len() == 0 && final(mem).segs@ == old(
                mem,
            ).segs@,
            spec_install_viable(old(self).detours, *old(mem), rt, rd) ==> r is Ok,
            old(mem).dynamic_code_blocked && spec_fast_slot(
                old(self).detours.regions,
                *old(mem),
                rt,
            ) is None ==> r == Err::<(), Error>(Error::NotEnoughMemory)
                && final(self).detours.regions.regions@ == old(self).detours.regions.regions@
                && final(mem).segs@ == old(mem).segs@,
            r is Err ==> mem_preserved(*old(mem), *final(mem)),
            forall|x: int|
                old(mem).addr_in(x) ==> #[trigger] final(mem).writable_at(x) == old(
                    mem,
                ).writable_at(x),
    {
        let ghost s1: Detours = self.detours;
        let ghost m1: Memory = *mem;
        let (block, fetch, w, jmp_to_detour, gwindow) = match self.prepare_install(mem, rt, rd) {
            Err(e) => {
                proof {
                    assert forall|x: int| m1.addr_in(x) implies #[trigger] mem.writable_at(x)
                        == m1.writable_at(x) by {
                        assert(mem.byte_at(x) == m1.byte_at(x));
                    }
                }
                return Err(e);
            },
            Ok(t) => t,
        };
        let ghost s2: Detours = self.detours;
        let ghost m2: Memory = *mem;
        let tail = detour_gen_jmp_immediate(block.addr + fetch as u64, rt + fetch as u64);
        apply_patch(mem, block, rt, fetch, &w, &tail, &jmp_to_detour);
        // Record the installation.
        let d = Detour {
            target: rt,
            fetch,
            detour: rd,
            block,
            original: Ghost(w@),
            window: Ghost(gwindow@),
        };
        let ghost gd: Detour = d;
        self.detours.detours.insert(rt, d);
        self.detours.targets.push(rt);
        proof {
            self.lemma_attach_commit(
                s1,
                s2,
                m1,
                m2,
                *mem,
                block,
                rt,
                rd,
                fetch,
                gd,
                jmp_to_detour@,
                tail@,
            );
            assert forall|x: int| m1.addr_in(x) implies #[trigger] mem.writable_at(x)
                == m1.writable_at(x) by {
                assert(m2.addr_in(x));
                assert(m2.byte_at(x) == m1.byte_at(x) && m2.writable_at(x) == m1.writable_at(x));
                assert(mem.writable_at(x) == m2.writable_at(x));
            }
        }
        Ok(())
    }

    /// Take a slot, choose the prologue length, check the detour's reach and
    /// the target's surroundings, and read the original bytes — everything
    /// an installation decides before it writes. On failure the slot has
    /// been returned and nothing observable changed but a possibly added
    /// (empty) region.
    #[verifier::rlimit(100)]
    #[verifier::spinoff_prover]
    fn prepare_install(&mut self, mem: &mut Memory, rt: u64, rd: u64) -> (r: Result<
        (Block, usize, Vec<u8>, Vec<u8>, Ghost<Seq<u8>>),
        Error,
    >)
        requires
            old(mem).wf(),
            old(self).detours.wf(*old(mem)),
            old(self).detours.regions_unlocked(*old(mem)),
            !old(self).detours.table().contains_key(rt),
        ensures
            final(mem).wf(),
            final(mem).dynamic_code_blocked == old(mem).dynamic_code_blocked,
            final(self).detours.table() == old(self).detours.table(),
            final(self).detours.targets@ == old(self).detours.targets@,
            r is Err ==> {
                &&& final(self).detours.wf(*final(mem))
                &&& final(self).detours.regions_unlocked(*final(mem))
                &&& (r == Err::<(Block, usize, Vec<u8>, Vec<u8>, Ghost<Seq<u8>>), Error>(
                    Error::InvalidAddress,
                ) || r == Err::<(Block, usize, Vec<u8>, Vec<u8>, Ghost<Seq<u8>>), Error>(
                    Error::NotEnoughMemory,
                ))
                &&& mem_preserved(*old(mem), *final(mem))
            },
            spec_prologue_fetch(*old(mem), rt) is None ==> r is Err,
            spec_prologue_fetch(*old(mem), rt) is Some && !jmp_reachable(rt as int, rd as int)
                ==> r == Err::<(Block, usize, Vec<u8>, Vec<u8>, Ghost<Seq<u8>>), Error>(
                Error::NotEnoughMemory,
            ),
            old(self).detours.regions.regions@.len() == 0 && old(mem).dynamic_code_blocked ==> r
                == Err::<(Block, usize, Vec<u8>, Vec<u8>, Ghost<Seq<u8>>), Error>(
                Error::NotEnoughMemory,
            ) && final(self).detours.regions.regions@.len() == 0 && final(mem).segs@ == old(
                mem,
            ).segs@,
            spec_install_viable(old(self).detours, *old(mem), rt, rd) ==> r is Ok,
            old(mem).dynamic_code_blocked && spec_fast_slot(
                old(self).detours.regions,
                *old(mem),
                rt,
            ) is None ==> r == Err::<(Block, usize, Vec<u8>, Vec<u8>, Ghost<Seq<u8>>), Error>(
                Error::NotEnoughMemory,
            ) && final(self).detours.regions.regions@ == old(self).detours.regions.regions@
                && final(mem).segs@ == old(mem).segs@,
            r matches Ok((block, fetch, w, jmpd, gwindow)) ==> {
                &&& alloc_block_post(
                    old(self).detours.regions,
                    final(self).detours.regions,
                    *old(mem),
                    *final(mem),
                    rt,
                    block,
                )
                &&& final(self).detours.regions.wf_with(*final(mem))
                &&& mem_preserved(*old(mem), *final(mem))
                &&& NEEDED_BYTES <= fetch < NEEDED_BYTES + MAX_INST_LEN
                &&& fetch as int <= u64::MAX - rt
                &&& spec_prologue_fetch(*final(mem), rt) == Some(fetch as nat)
                &&& spec_prologue_fetch(*old(mem), rt) == Some(fetch as nat)
                &&& final(mem).range_in(rt as int, fetch as int)
                &&& old(mem).range_in(rt as int, fetch as int)
                &&& w@ == final(mem).bytes_at(rt as int, fetch as nat)
                &&& w@ == old(mem).bytes_at(rt as int, fetch as nat)
                &&& gwindow@ == final(mem).window_at(rt as int, PREFETCH_INST_SIZE as int)
                &&& jmpd@ == jmp_bytes(rt as int, rd as int)
                &&& jmpd@.len() == 5
                &&& jmp_reachable(rt as int, rd as int)
                &&& final(mem).range_in(block.addr as int, TRAMPOLINE_SIZE as int)
                &&& block.addr + TRAMPOLINE_SIZE <= u64::MAX as int + 1
                &&& final(mem).writable_at(block.addr as int)
                &&& (rt + fetch <= block.addr || block.addr + TRAMPOLINE_SIZE <= rt)
                &&& forall|i: int|
                    0 <= i < final(self).detours.regions.regions@.len() ==> (rt + fetch <= (
                    #[trigger] final(self).detours.regions.regions@[i]).base
                        || final(self).detours.regions.regions@[i].base + DETOUR_REGION_SIZE <= rt)
                &&& forall|t2: u64|
                    #[trigger] old(self).detours.table().contains_key(t2) ==> (old(
                        self,
                    ).detours.table()[t2].target + old(self).detours.table()[t2].fetch <= rt || rt
                        + fetch <= old(self).detours.table()[t2].target)
                &&& final(self).detours.detours == old(self).detours.detours
                &&& final(self).detours.targets == old(self).detours.targets
            },
    {
        let ghost s1: Detours = self.detours;
        let ghost m1: Memory = *mem;
        // Obtain a trampoline slot reachable from the target.
        let block = match self.detours.regions.alloc_block(mem, rt) {
            None => {
                proof {
                    s1.lemma_wf_same_views(self.detours, m1, *mem);
                    // Neither the hinted slot nor a fresh placement exists,
                    // so the installation was not viable.
                    if spec_install_viable(s1, m1, rt, rd) {
                        assert(false);
                    }
                }
                return Err(Error::NotEnoughMemory);
            },
            Some(b) => b,
        };
        proof {
            // Under the dynamic-code policy only the hinted slot could have
            // produced this block.
            if m1.dynamic_code_blocked && spec_fast_slot(s1.regions, m1, rt) is None {
                let bounds = spec_find_jmp_bounds(crate::inst::spec_decode_at(m1, rt, 0xe));
                crate::mem::lemma_allocate_new_blocked(
                    m1,
                    spec_round_down(rt as int),
                    bounds.0,
                    bounds.1,
                );
                assert(false);
            }
        }
        let ghost s2: Detours = self.detours;
        let ghost m2: Memory = *mem;
        // Decide how much of the prologue must be relocated.
        let fetch = match find_prologue_fetch(mem, rt) {
            Err(_) => {
                let freed = self.detours.regions.free_block(&block);
                proof {
                    self.lemma_attach_unwind(s1, s2, m1, m2, block, rt);
                    lemma_fetch_none_stable(s1, s2, m1, m2, block, rt);
                    if s1.regions.regions@.len() == 0 && m1.dynamic_code_blocked {
                        assert(block.region_index >= s1.regions.regions@.len());
                        assert(false);
                    }
                    // No prologue, no viable installation.
                    if spec_install_viable(s1, m1, rt, rd) {
                        assert(false);
                    }
                }
                return Err(Error::InvalidAddress);
            },
            Ok(f) => f,
        };
        let ghost gwindow: Seq<u8> = m2.window_at(rt as int, PREFETCH_INST_SIZE as int);
        // The five-byte jump at the target must reach the detour, and a
        // target inside a region, at the very top of memory, or overlapping
        // an installed hook cannot keep the collection sound.
        let reach = detour_try_gen_jmp_immediate(rt, rd);
        let failure: Option<Error> = if reach.is_none() {
            Some(Error::NotEnoughMemory)
        } else if fetch as u64 > u64::MAX - rt || self.target_collides(rt, fetch) {
            Some(Error::InvalidAddress)
        } else {
            None
        };
        if let Some(e) = failure {
            let freed = self.detours.regions.free_block(&block);
            proof {
                self.lemma_attach_unwind(s1, s2, m1, m2, block, rt);
                if s1.regions.regions@.len() == 0 && m1.dynamic_code_blocked {
                    assert(block.region_index >= s1.regions.regions@.len());
                    assert(false);
                }
                // Whichever guard fired contradicts a viability conjunct.
                if spec_install_viable(s1, m1, rt, rd) {
                    lemma_fetch_some_stable(s1, s2, m1, m2, block, rt);
                    assert(spec_prologue_fetch(m1, rt) == Some(fetch as nat));
                    lemma_prologue_fetch_range(m1, rt, fetch as nat);
                    assert forall|i: int|
                        0 <= i < s2.regions.regions@.len() implies (rt + fetch <= (
                    #[trigger] s2.regions.regions@[i]).base || s2.regions.regions@[i].base
                        + DETOUR_REGION_SIZE <= rt) by {
                        if i < s1.regions.regions@.len() {
                            assert(s2.regions.regions@[i].base == s1.regions.regions@[i].base) by {
                                if i != block.region_index as int {
                                    assert(s2.regions.regions@[i] == s1.regions.regions@[i]);
                                }
                            }
                        } else {
                            // The fresh region grew out of free memory while
                            // the target's prologue range was mapped.
                            let pb = s2.regions.regions@[i].base;
                            assert(fresh_region_at(m1, m2, pb));
                            if rt + fetch > pb && pb + DETOUR_REGION_SIZE > rt {
                                let x: int = if rt >= pb {
                                    rt as int
                                } else {
                                    pb as int
                                };
                                let sj = choose|sj: int|
                                    0 <= sj < m1.segs@.len() && (
                                    #[trigger] m1.segs@[sj]).contains_range(
                                        rt as int,
                                        fetch as int,
                                    );
                                assert(m1.segs@[sj].contains(x));
                                assert(m1.addr_in(x));
                                assert(false);
                            }
                        }
                    }
                    assert(false);
                }
            }
            return Err(e);
        }
        let jmp_to_detour = match reach {
            None => {
                proof {
                    assert(false);
                }
                return Err(Error::NotEnoughMemory);
            },
            Some(v) => v,
        };
        proof {
            self.lemma_fetch_bridge(s1, s2, m1, m2, block, rt, fetch);
        }
        // Read the original prologue bytes.
        let w = match mem.read_bytes(rt, fetch) {
            None => {
                proof {
                    assert(false);
                }
                return Err(Error::InvalidAddress);
            },
            Some(w) => w,
        };
        proof {
            if s1.regions.regions@.len() == 0 && m1.dynamic_code_blocked {
                assert(block.region_index >= s1.regions.regions@.len());
                assert(false);
            }
            assert forall|i: int|
                0 <= i < self.detours.regions.regions@.len() implies (rt + fetch <= (
            #[trigger] self.detours.regions.regions@[i]).base
                || self.detours.regions.regions@[i].base + DETOUR_REGION_SIZE <= rt) by {
                if !(rt + fetch <= self.detours.regions.regions@[i].base
                    || self.detours.regions.regions@[i].base + DETOUR_REGION_SIZE <= rt) {
                    assert(exists|k: int|
                        0 <= k < self.detours.regions.regions@.len() && !(rt + fetch <= (
                        #[trigger] self.detours.regions.regions@[k]).base
                            || self.detours.regions.regions@[k].base + DETOUR_REGION_SIZE <= rt));
                }
            }
            assert forall|t2: u64| #[trigger] s1.table().contains_key(t2) implies (s1.table()[
            t2].target + s1.table()[t2].fetch <= rt || rt + fetch <= s1.table()[t2].target) by {
                if !(s1.table()[t2].target + s1.table()[t2].fetch <= rt || rt + fetch <= s1.table()[
                t2].target) {
                    assert(self.detours.table() == s1.table());
                    assert(self.detours.table().contains_key(t2));
                    assert(!(self.detours.table()[t2].target + self.detours.table()[t2].fetch <= rt
                        || rt + fetch <= self.detours.table()[t2].target));
                    assert(exists|t3: u64|
                        #[trigger] self.detours.table().contains_key(t3) && !(self.detours.table()[
                        t3].target + self.detours.table()[t3].fetch <= rt || rt + fetch
                            <= self.detours.table()[t3].target));
                }
            }
        }
        Ok((block, fetch, w, jmp_to_detour, Ghost(gwindow)))
    }

    /// Roll a failed installation back: after the freshly taken slot has
    /// been returned, the collection is sound again — unchanged but for a
    /// possibly added (empty) region.
    #[verifier::rlimit(100)]
    #[verifier::spinoff_prover]
    proof fn lemma_attach_unwind(
        self,
        s1: Detours,
        s2: Detours,
        m1: Memory,
        m2: Memory,
        block: Block,
        rt: u64,
    )
        requires
            s1.wf(m1),
            s1.regions_unlocked(m1),
            alloc_block_post(s1.regions, s2.regions, m1, m2, rt, block),
            m2.wf(),
            s2.regions.wf_with(m2),
            mem_preserved(m1, m2),
            self.detours.table() == s1.table(),
            self.detours.targets@ == s1.targets@,
            s2.detours == self.detours.detours,
            s2.targets == self.detours.targets,
            self.detours.regions.regions_wf(),
            self.detours.regions.current == s2.regions.current,
            self.detours.regions.regions@.len() == s2.regions.regions@.len(),
            forall|i: int|
                0 <= i < s2.regions.regions@.len() && i != block.region_index ==> (
                #[trigger] self.detours.regions.regions@[i]) == s2.regions.regions@[i],
            self.detours.regions.regions@[block.region_index as int].base
                == s2.regions.regions@[block.region_index as int].base,
            self.detours.regions.regions@[block.region_index as int].state@
                == s2.regions.regions@[block.region_index as int].state@.update(
                block.slot_index as int,
                false,
            ),
        ensures
            self.detours.wf(m2),
            self.detours.regions_unlocked(m2),
    {
        let sf = self.detours;
        let ri = block.region_index as int;
        let si = block.slot_index as int;
        // Region soundness survives the free (bases and lengths unchanged).
        assert forall|i: int| 0 <= i < sf.regions.regions@.len() implies region_mapped(
            m2,
            (#[trigger] sf.regions.regions@[i]).base,
        ) by {
            assert(sf.regions.regions@[i].base == s2.regions.regions@[i].base);
        }
        assert forall|i: int, j: int|
            0 <= i < j < sf.regions.regions@.len() implies (
        #[trigger] sf.regions.regions@[i]).base != (#[trigger] sf.regions.regions@[j]).base by {
            assert(sf.regions.regions@[i].base == s2.regions.regions@[i].base);
            assert(sf.regions.regions@[j].base == s2.regions.regions@[j].base);
        }
        // Every installed detour carries over.
        assert forall|t: u64| #[trigger] sf.table().contains_key(t) implies sf.table()[t].target
            == t && detour_ok(sf.regions, m2, sf.table()[t]) by {
            let d2 = sf.table()[t];
            assert(s1.table().contains_key(t) && s1.table()[t] == d2);
            assert(detour_ok(s1.regions, m1, d2));
            let ri2 = d2.block.region_index as int;
            let si2 = d2.block.slot_index as int;
            // The freed slot is not d2's slot.
            if ri2 == ri && si2 == si {
                if ri < s1.regions.regions@.len() {
                    assert(!s1.regions.regions@[ri].state@[si]);
                    assert(false);
                } else {
                    assert(false);
                }
            }
            assert(sf.regions.regions@[ri2].state@[si2]) by {
                if ri2 == ri {
                    assert(s2.regions.regions@[ri].state@[si2]);
                } else {
                    assert(sf.regions.regions@[ri2] == s2.regions.regions@[ri2]);
                    if ri2 < s1.regions.regions@.len() {
                        assert(s2.regions.regions@[ri2] == s1.regions.regions@[ri2]);
                    }
                }
            }
            assert forall|i: int|
                s1.regions.regions@.len() <= i < sf.regions.regions@.len() implies (d2.target
                + d2.fetch <= (#[trigger] sf.regions.regions@[i]).base
                || sf.regions.regions@[i].base + DETOUR_REGION_SIZE <= d2.target) by {
                // Only a fresh region can carry a new index, and it was free
                // memory while d2's target range was mapped.
                let pb = s2.regions.regions@[i].base;
                assert(sf.regions.regions@[i].base == pb);
                assert(fresh_region_at(m1, m2, pb));
                if d2.target + d2.fetch > pb && pb + DETOUR_REGION_SIZE > d2.target {
                    let x: int = if d2.target >= pb {
                        d2.target as int
                    } else {
                        pb as int
                    };
                    assert(d2.target <= x < d2.target + d2.fetch);
                    assert(pb <= x < pb + DETOUR_REGION_SIZE);
                    let sj = choose|sj: int|
                        0 <= sj < m1.segs@.len() && (#[trigger] m1.segs@[sj]).contains_range(
                            d2.target as int,
                            d2.fetch as int,
                        );
                    assert(m1.segs@[sj].contains(x));
                    assert(m1.addr_in(x));
                    assert(false);
                }
            }
            assert(m1.range_in(d2.target as int, d2.fetch as int));
            assert forall|x: int, n: int| #[trigger] m1.range_in(x, n) implies m2.range_in(
                x,
                n,
            ) by {
                if block.region_index < s1.regions.regions@.len() {
                    m1.lemma_same_segs(m2);
                } else {
                    lemma_fresh_keeps_range(
                        m1,
                        m2,
                        s2.regions.regions@[block.region_index as int].base,
                    );
                }
            }
            assert forall|x: int| d2.target <= x < d2.target + d2.fetch implies #[trigger] m2
                .byte_at(x) == m1.byte_at(x) by {
                let sj = choose|sj: int|
                    0 <= sj < m1.segs@.len() && (#[trigger] m1.segs@[sj]).contains_range(
                        d2.target as int,
                        d2.fetch as int,
                    );
                assert(m1.segs@[sj].contains(x));
                assert(m1.addr_in(x));
            }
            s1.lemma_slot_range(m1, ri2, si2);
            assert forall|x: int| d2.block.addr <= x < d2.block.addr + d2.fetch + 5 implies
                #[trigger] m2.byte_at(x) == m1.byte_at(x) by {
                let sj = choose|sj: int|
                    0 <= sj < m1.segs@.len() && (#[trigger] m1.segs@[sj]).contains_range(
                        d2.block.addr as int,
                        TRAMPOLINE_SIZE as int,
                    );
                assert(m1.segs@[sj].contains(x));
                assert(m1.addr_in(x));
            }
            lemma_detour_carry(s1.regions, sf.regions, m1, m2, d2);
        }
        // Occupied slots still have their owners.
        assert forall|i: int, j: int|
            0 <= i < sf.regions.regions@.len() && 0 <= j < BLOCK_COUNT && (
            #[trigger] sf.regions.regions@[i].state@[j]) implies exists|t: u64|
            #[trigger] sf.table().contains_key(t) && sf.table()[t].block.region_index == i
                && sf.table()[t].block.slot_index == j by {
            assert(!(i == ri && j == si));
            if i < s1.regions.regions@.len() {
                assert(s1.regions.regions@[i].state@[j]) by {
                    if i == ri {
                        assert(s2.regions.regions@[i].state@
                            == s1.regions.regions@[i].state@.update(si, true));
                    } else {
                        assert(sf.regions.regions@[i] == s2.regions.regions@[i]);
                        assert(s2.regions.regions@[i] == s1.regions.regions@[i]);
                    }
                }
            } else {
                // A slot of the fresh region: only the freed one was taken.
                assert(i == block.region_index as int);
                assert(s2.regions.regions@[i].state@ == Seq::new(
                    BLOCK_COUNT as nat,
                    |t: int| false,
                ).update(0, true));
                assert(false);
            }
        }
        // Regions stay writable.
        assert forall|x: int| #[trigger] sf.regions.in_region_range(x) implies m2.addr_in(x)
            && m2.writable_at(x) by {
            let i = choose|i: int|
                0 <= i < sf.regions.regions@.len() && (#[trigger] sf.regions.regions@[i]).base <= x
                    < sf.regions.regions@[i].base + DETOUR_REGION_SIZE;
            assert(sf.regions.regions@[i].base == s2.regions.regions@[i].base);
            if i < s1.regions.regions@.len() {
                assert(s2.regions.regions@[i].base == s1.regions.regions@[i].base);
                assert(s1.regions.in_region_range(x)) by {
                    assert(s1.regions.regions@[i].base <= x < s1.regions.regions@[i].base
                        + DETOUR_REGION_SIZE);
                }
                assert(m1.addr_in(x) && m1.writable_at(x));
                assert(m2.byte_at(x) == m1.byte_at(x));
            } else {
                assert(i == block.region_index as int);
                assert(block.region_index >= s1.regions.regions@.len());
                let pb = s2.regions.regions@[block.region_index as int].base;
                assert(fresh_region_at(m1, m2, pb));
                assert(pb <= x < pb + DETOUR_REGION_SIZE);
                lemma_fresh_slot_byte(m1, m2, pb, x);
            }
        }
    }

    /// After a collision-free slot allocation, the chosen prologue length
    /// and bytes read off the post-allocation memory agree with the memory
    /// the caller started from, and the slot is writable.
    #[verifier::rlimit(100)]
    #[verifier::spinoff_prover]
    proof fn lemma_fetch_bridge(
        self,
        s1: Detours,
        s2: Detours,
        m1: Memory,
        m2: Memory,
        block: Block,
        rt: u64,
        fetch: usize,
    )
        requires
            m1.wf(),
            s1.regions.wf_with(m1),
            s1.regions_unlocked(m1),
            alloc_block_post(s1.regions, s2.regions, m1, m2, rt, block),
            m2.wf(),
            s2.regions.wf_with(m2),
            mem_preserved(m1, m2),
            spec_prologue_fetch(m2, rt) == Some(fetch as nat),
            NEEDED_BYTES <= fetch < NEEDED_BYTES + MAX_INST_LEN,
            fetch as int <= u64::MAX - rt,
            forall|i: int|
                0 <= i < s2.regions.regions@.len() ==> (rt + fetch <= (
                #[trigger] s2.regions.regions@[i]).base || s2.regions.regions@[i].base
                    + DETOUR_REGION_SIZE <= rt),
        ensures
            m2.range_in(rt as int, fetch as int),
            m1.addr_in(rt as int),
            m1.range_in(rt as int, fetch as int),
            spec_prologue_fetch(m1, rt) == Some(fetch as nat),
            m2.bytes_at(rt as int, fetch as nat) == m1.bytes_at(rt as int, fetch as nat),
            m2.range_in(block.addr as int, TRAMPOLINE_SIZE as int),
            block.addr + TRAMPOLINE_SIZE <= u64::MAX as int + 1,
            m2.writable_at(block.addr as int),
            rt + fetch <= block.addr || block.addr + TRAMPOLINE_SIZE <= rt,
    {
        lemma_prologue_fetch_range(m2, rt, fetch as nat);
        s2.regions.lemma_wf_with_gives_slot(m2, block);
        // The target lies outside every region, so it was already mapped
        // before the allocation, with the same window.
        let i0 = choose|i0: int|
            0 <= i0 < m2.segs@.len() && (#[trigger] m2.segs@[i0]).contains_range(
                rt as int,
                fetch as int,
            );
        assert(m2.segs@[i0].contains(rt as int));
        assert(m2.addr_in(rt as int));
        if block.region_index >= s1.regions.regions@.len() {
            let pb = s2.regions.regions@[block.region_index as int].base;
            assert(fresh_region_at(m1, m2, pb));
            assert(rt + fetch <= pb || pb + DETOUR_REGION_SIZE <= rt);
            assert(m1.addr_in(rt as int));
        } else {
            m1.lemma_same_segs(m2);
            assert(m1.addr_in(rt as int));
        }
        assert forall|j: int| 0 <= j < m1.segs@.len() implies exists|j2: int|
            0 <= j2 < m2.segs@.len() && (#[trigger] m2.segs@[j2]).base == (
            #[trigger] m1.segs@[j]).base && m2.segs@[j2].bytes@.len()
            == m1.segs@[j].bytes@.len() by {
            if block.region_index >= s1.regions.regions@.len() {
                let pb = s2.regions.regions@[block.region_index as int].base;
                assert(fresh_region_at(m1, m2, pb));
            } else {
                assert(m2.segs@[j] == m1.segs@[j]);
            }
        }
        m1.lemma_window_stable(m2, rt, PREFETCH_INST_SIZE as int);
        assert(spec_prologue_fetch(m1, rt) == Some(fetch as nat));
        lemma_prologue_fetch_range(m1, rt, fetch as nat);
        m1.lemma_bytes_at_stable(m2, rt as int, fetch as nat);
        self.lemma_slot_ready(s1, s2, m1, m2, block, rt, fetch);
    }


    /// Remove every installed hook: afterwards the table is empty and the
    /// memory at every previously hooked address holds its pre-attach bytes
    /// again, while everything that was never hooked is untouched.
    #[verifier::rlimit(100)]
    #[verifier::spinoff_prover]
    pub fn detach_all(&mut self, mem: &mut Memory)
        requires
            old(mem).wf(),
            old(self).detours.wf(*old(mem)),
            old(self).detours.regions_unlocked(*old(mem)),
        ensures
            final(mem).wf(),
            final(self).detours.wf(*final(mem)),
            final(self).detours.regions_unlocked(*final(mem)),
            final(mem).dynamic_code_blocked == old(mem).dynamic_code_blocked,
            forall|t: u64| !(#[trigger] final(self).detours.table().contains_key(t)),
            final(self).detours.regions.regions@.len() == old(
                self,
            ).detours.regions.regions@.len(),
            forall|i: int|
                0 <= i < old(self).detours.regions.regions@.len() ==> (
                #[trigger] final(self).detours.regions.regions@[i]).base == old(
                    self,
                ).detours.regions.regions@[i].base,
            forall|x: int| final(mem).addr_in(x) == old(mem).addr_in(x),
            forall|x: int|
                old(mem).addr_in(x) ==> #[trigger] final(mem).writable_at(x) == old(
                    mem,
                ).writable_at(x),
            forall|t: u64|
                #[trigger] old(self).detours.table().contains_key(t) ==> ({
                    let d = old(self).detours.table()[t];
                    forall|x: int|
                        d.target <= x < d.target + d.fetch ==> #[trigger] final(mem).byte_at(x)
                            == d.original@[x - d.target]
                }),
            forall|x: int|
                old(mem).addr_in(x) && (forall|t: u64|
                    #[trigger] old(self).detours.table().contains_key(t) ==> !(old(
                        self,
                    ).detours.table()[t].target <= x < old(self).detours.table()[t].target + old(
                        self,
                    ).detours.table()[t].fetch)) ==> #[trigger] final(mem).byte_at(x) == old(
                    mem,
                ).byte_at(x),
    {
        loop
            invariant
                mem.wf(),
                self.detours.wf(*mem),
                self.detours.regions_unlocked(*mem),
                old(mem).wf(),
                old(self).detours.wf(*old(mem)),
                mem.dynamic_code_blocked == old(mem).dynamic_code_blocked,
                self.detours.regions.regions@.len() == old(
                    self,
                ).detours.regions.regions@.len(),
                forall|i: int|
                    0 <= i < old(self).detours.regions.regions@.len() ==> (
                    #[trigger] self.detours.regions.regions@[i]).base == old(
                        self,
                    ).detours.regions.regions@[i].base,
                forall|t: u64|
                    #[trigger] self.detours.table().contains_key(t) ==> old(
                        self,
                    ).detours.table().contains_key(t) && self.detours.table()[t] == old(
                        self,
                    ).detours.table()[t],
                forall|x: int| mem.addr_in(x) == old(mem).addr_in(x),
                forall|x: int|
                    old(mem).addr_in(x) ==> #[trigger] mem.writable_at(x) == old(mem).writable_at(
                        x,
                    ),
                forall|t: u64|
                    #[trigger] old(self).detours.table().contains_key(t)
                        && !self.detours.table().contains_key(t) ==> ({
                        let d = old(self).detours.table()[t];
                        forall|x: int|
                            d.target <= x < d.target + d.fetch ==> #[trigger] mem.byte_at(x)
                                == d.original@[x - d.target]
                    }),
                forall|x: int|
                    old(mem).addr_in(x) && (forall|t: u64|
                        #[trigger] old(self).detours.table().contains_key(t) ==> !(old(
                            self,
                        ).detours.table()[t].target <= x < old(self).detours.table()[t].target
                            + old(self).detours.table()[t].fetch)) ==> #[trigger] mem.byte_at(x)
                        == old(mem).byte_at(x),
            decreases self.detours.targets@.len(),
        {
            let n = self.detours.targets.len();
            if n == 0 {
                proof {
                    assert forall|t: u64| !(#[trigger] self.detours.table().contains_key(t)) by {
                        if self.detours.table().contains_key(t) {
                            assert(self.detours.targets@.contains(t));
                        }
                    }
                }
                return ;
            }
            let t = self.detours.targets[n - 1];
            proof {
                assert(self.detours.targets@.contains(t));
                assert(self.detours.table().contains_key(t));
            }
            let ghost sp: Detours = self.detours;
            let ghost mp: Memory = *mem;
            let ghost d: Detour = self.detours.table()[t];
            self.detach(mem, &t);
            proof {
                assert(old(self).detours.table().contains_key(t));
                assert(d == old(self).detours.table()[t]);
                // The bytes just restored stay restored, and everything
                // restored earlier was untouched by this detach: hooked
                // ranges never overlap.
                assert forall|t2: u64|
                    #[trigger] old(self).detours.table().contains_key(t2)
                        && !self.detours.table().contains_key(t2) implies ({
                    let d2 = old(self).detours.table()[t2];
                    forall|x: int|
                        d2.target <= x < d2.target + d2.fetch ==> #[trigger] mem.byte_at(x)
                            == d2.original@[x - d2.target]
                }) by {
                    let d2 = old(self).detours.table()[t2];
                    if t2 == t {
                        assert forall|x: int|
                            d2.target <= x < d2.target + d2.fetch implies #[trigger] mem.byte_at(
                            x,
                        ) == d2.original@[x - d2.target] by {
                            assert(mp.range_in(d2.target as int, d2.fetch as int));
                            let sj = choose|sj: int|
                                0 <= sj < mp.segs@.len() && (
                                #[trigger] mp.segs@[sj]).contains_range(
                                    d2.target as int,
                                    d2.fetch as int,
                                );
                            assert(mp.segs@[sj].contains(x));
                            assert(mp.addr_in(x));
                        }
                    } else {
                        assert(!sp.table().contains_key(t2));
                        assert(d2.target + d2.fetch <= d.target || d.target + d.fetch
                            <= d2.target);
                        assert(old(mem).range_in(d2.target as int, d2.fetch as int));
                        assert forall|x: int|
                            d2.target <= x < d2.target + d2.fetch implies #[trigger] mem.byte_at(
                            x,
                        ) == d2.original@[x - d2.target] by {
                            let sj = choose|sj: int|
                                0 <= sj < old(mem).segs@.len() && (
                                #[trigger] old(mem).segs@[sj]).contains_range(
                                    d2.target as int,
                                    d2.fetch as int,
                                );
                            assert(old(mem).segs@[sj].contains(x));
                            assert(old(mem).addr_in(x));
                            assert(mp.addr_in(x));
                            assert(mp.byte_at(x) == d2.original@[x - d2.target]);
                            assert(!(d.target <= x < d.target + d.fetch));
                        }
                    }
                }
            }
        }
    }

    /// The slot handed out by the allocator is mapped, writable, and clear
    /// of the target range.
    #[verifier::rlimit(100)]
    #[verifier::spinoff_prover]
    proof fn lemma_slot_ready(
        self,
        s1: Detours,
        s2: Detours,
        m1: Memory,
        m2: Memory,
        block: Block,
        rt: u64,
        fetch: usize,
    )
        requires
            m1.wf(),
            s1.regions.wf_with(m1),
            s1.regions_unlocked(m1),
            alloc_block_post(s1.regions, s2.regions, m1, m2, rt, block),
            m2.wf(),
            s2.regions.wf_with(m2),
            mem_preserved(m1, m2),
            spec_prologue_fetch(m2, rt) == Some(fetch as nat),
            NEEDED_BYTES <= fetch < NEEDED_BYTES + MAX_INST_LEN,
            fetch as int <= u64::MAX - rt,
            forall|i: int|
                0 <= i < s2.regions.regions@.len() ==> (rt + fetch <= (
                #[trigger] s2.regions.regions@[i]).base || s2.regions.regions@[i].base
                    + DETOUR_REGION_SIZE <= rt),
        ensures
            m2.range_in(block.addr as int, TRAMPOLINE_SIZE as int),
            block.addr + TRAMPOLINE_SIZE <= u64::MAX as int + 1,
            m2.writable_at(block.addr as int),
            rt + fetch <= block.addr || block.addr + TRAMPOLINE_SIZE <= rt,
    {
        s2.regions.lemma_wf_with_gives_slot(m2, block);
        // The slot is writable: its region is writable inside the window
        // (a fresh one is born writable).
        let ba: int = block.addr as int;
        assert(s2.regions.in_region_range(ba));
        let i = choose|i: int|
            0 <= i < s2.regions.regions@.len() && (#[trigger] s2.regions.regions@[i]).base <= ba
                < s2.regions.regions@[i].base + DETOUR_REGION_SIZE;
        if i < s1.regions.regions@.len() {
            assert(s2.regions.regions@[i].base == s1.regions.regions@[i].base) by {
                if i != block.region_index as int {
                    assert(s2.regions.regions@[i] == s1.regions.regions@[i]);
                }
            }
            assert(s1.regions.in_region_range(ba)) by {
                assert(s1.regions.regions@[i].base <= ba < s1.regions.regions@[i].base
                    + DETOUR_REGION_SIZE);
            }
            assert(m1.addr_in(ba) && m1.writable_at(ba));
            assert(m2.byte_at(ba) == m1.byte_at(ba));
        } else {
            assert(i == block.region_index as int);
            let pb = s2.regions.regions@[block.region_index as int].base;
            assert(fresh_region_at(m1, m2, pb));
            assert(pb <= ba < pb + DETOUR_REGION_SIZE);
            lemma_fresh_slot_byte(m1, m2, pb, ba);
        }
        // The patched target range stays clear of the slot's region.
        let rbase = s2.regions.regions@[block.region_index as int].base;
        assert(rt + fetch <= rbase || rbase + DETOUR_REGION_SIZE <= rt);
        assert(rbase <= block.addr && block.addr + TRAMPOLINE_SIZE <= rbase + DETOUR_REGION_SIZE);
    }

    /// The freshly inserted record is sound in the patched memory.
    #[verifier::rlimit(100)]
    #[verifier::spinoff_prover]
    proof fn lemma_commit_new(
        self,
        s1: Detours,
        s2: Detours,
        m1: Memory,
        m2: Memory,
        mf: Memory,
        block: Block,
        rt: u64,
        rd: u64,
        fetch: usize,
        d: Detour,
        jmpd: Seq<u8>,
        tail: Seq<u8>,
    )
        requires
            s1.wf(m1),
            s1.regions_unlocked(m1),
            !s1.table().contains_key(rt),
            alloc_block_post(s1.regions, s2.regions, m1, m2, rt, block),
            m2.wf(),
            s2.regions.wf_with(m2),
            mem_preserved(m1, m2),
            NEEDED_BYTES <= fetch < NEEDED_BYTES + MAX_INST_LEN,
            fetch as int <= u64::MAX - rt,
            m2.range_in(rt as int, fetch as int),
            m1.range_in(rt as int, fetch as int),
            spec_prologue_fetch(m2, rt) == Some(fetch as nat),
            d.target == rt,
            d.detour == rd,
            d.fetch == fetch,
            d.block == block,
            d.original@ == m2.bytes_at(rt as int, fetch as nat),
            d.window@ == m2.window_at(rt as int, PREFETCH_INST_SIZE as int),
            forall|i: int|
                0 <= i < s2.regions.regions@.len() ==> (rt + fetch <= (
                #[trigger] s2.regions.regions@[i]).base || s2.regions.regions@[i].base
                    + DETOUR_REGION_SIZE <= rt),
            forall|t2: u64|
                #[trigger] s1.table().contains_key(t2) ==> (s1.table()[t2].target + s1.table()[
                t2].fetch <= rt || rt + fetch <= s1.table()[t2].target),
            jmp_reachable(rt as int, rd as int),
            jmpd.len() == 5,
            jmpd == jmp_bytes(rt as int, rd as int),
            tail == jmp_bytes(block.addr + fetch, rt + fetch),
            mf.wf(),
            mf.segs@.len() == m2.segs@.len(),
            forall|t: int|
                0 <= t < m2.segs@.len() ==> (#[trigger] mf.segs@[t]).base == m2.segs@[t].base
                    && mf.segs@[t].bytes@.len() == m2.segs@[t].bytes@.len(),
            forall|x: int| m2.addr_in(x) ==> #[trigger] mf.writable_at(x) == m2.writable_at(x),
            forall|x: int|
                m2.addr_in(x) ==> #[trigger] mf.byte_at(x) == (if rt <= x < rt + 5 {
                    jmpd[x - rt]
                } else if block.addr <= x < block.addr + fetch {
                    d.original@[x - block.addr]
                } else if block.addr + fetch <= x < block.addr + fetch + 5 {
                    tail[x - (block.addr + fetch)]
                } else {
                    m2.byte_at(x)
                }),
            self.detours.regions == s2.regions,
            self.detours.table() == s1.table().insert(rt, d),
            self.detours.targets@ == s1.targets@.push(rt),
        ensures
            detour_ok(self.detours.regions, mf, d),
    {
        let sf = self.detours;
        let ri = block.region_index as int;
        let si = block.slot_index as int;
        m2.lemma_layout_stable(mf);
        s2.regions.lemma_wf_with_stable(m2, mf);
        s2.regions.lemma_wf_with_gives_slot(m2, block);
        assert forall|x: int|
            block.addr <= x < block.addr + fetch + 5 implies !(rt <= x < rt + fetch) && m2.addr_in(
                x,
            ) by {
            assert(s2.regions.in_region_range(x));
            let i = choose|i: int|
                0 <= i < s2.regions.regions@.len() && (#[trigger] s2.regions.regions@[i]).base <= x
                    < s2.regions.regions@[i].base + DETOUR_REGION_SIZE;
        }
        // The new record is sound.
        assert(detour_ok(sf.regions, mf, d)) by {
            crate::inst::lemma_fetch_rec_bounds(d.window@, rt, 0);
            assert(d.original@ == d.window@.subrange(0, fetch as int)) by {
                let i0 = m2.idx_of(rt as int);
                assert(d.original@ =~= d.window@.subrange(0, fetch as int));
            }
            assert(mf.bytes_at(rt as int, 5) =~= jmpd) by {
                let i0 = choose|i0: int|
                    0 <= i0 < m2.segs@.len() && (#[trigger] m2.segs@[i0]).contains_range(
                        rt as int,
                        fetch as int,
                    );
                assert forall|k: int| 0 <= k < 5 implies #[trigger] mf.byte_at(rt + k) == jmpd[
                k] by {
                    assert(m2.segs@[i0].contains(rt + k));
                    assert(m2.addr_in(rt + k));
                }
            }
            assert(mf.bytes_at(rt + 5, (fetch - 5) as nat) =~= d.original@.subrange(
                5,
                fetch as int,
            )) by {
                let i0 = choose|i0: int|
                    0 <= i0 < m2.segs@.len() && (#[trigger] m2.segs@[i0]).contains_range(
                        rt as int,
                        fetch as int,
                    );
                assert forall|k: int| 0 <= k < fetch - 5 implies #[trigger] mf.byte_at(
                    rt + 5 + k,
                ) == d.original@[5 + k] by {
                    assert(m2.segs@[i0].contains(rt + 5 + k));
                    assert(m2.addr_in(rt + 5 + k));
                    assert(!(block.addr <= rt + 5 + k < block.addr + fetch + 5));
                    assert(mf.byte_at(rt + 5 + k) == m2.byte_at(rt + 5 + k));
                }
            }
            assert(mf.bytes_at(block.addr as int, fetch as nat) =~= d.original@) by {
                assert forall|k: int| 0 <= k < fetch implies #[trigger] mf.byte_at(
                    block.addr + k,
                ) == d.original@[k] by {
                    assert(m2.addr_in(block.addr + k));
                    assert(!(rt <= block.addr + k < rt + 5));
                }
            }
            assert(mf.bytes_at(block.addr + fetch, 5) =~= tail) by {
                assert forall|k: int| 0 <= k < 5 implies #[trigger] mf.byte_at(
                    block.addr + fetch + k,
                ) == tail[k] by {
                    assert(m2.addr_in(block.addr + fetch + k));
                    assert(!(rt <= block.addr + fetch + k < rt + 5));
                    assert(!(block.addr <= block.addr + fetch + k < block.addr + fetch));
                }
            }
            assert(jmp_reachable(block.addr + fetch, rt + fetch));
        }
    }

    /// Every record installed before the patch is still sound after it.
    #[verifier::rlimit(100)]
    #[verifier::spinoff_prover]
    proof fn lemma_commit_carry(
        self,
        s1: Detours,
        s2: Detours,
        m1: Memory,
        m2: Memory,
        mf: Memory,
        block: Block,
        rt: u64,
        rd: u64,
        fetch: usize,
        d: Detour,
        jmpd: Seq<u8>,
        tail: Seq<u8>,
    )
        requires
            s1.wf(m1),
            s1.regions_unlocked(m1),
            !s1.table().contains_key(rt),
            alloc_block_post(s1.regions, s2.regions, m1, m2, rt, block),
            m2.wf(),
            s2.regions.wf_with(m2),
            mem_preserved(m1, m2),
            NEEDED_BYTES <= fetch < NEEDED_BYTES + MAX_INST_LEN,
            fetch as int <= u64::MAX - rt,
            m2.range_in(rt as int, fetch as int),
            m1.range_in(rt as int, fetch as int),
            spec_prologue_fetch(m2, rt) == Some(fetch as nat),
            d.target == rt,
            d.detour == rd,
            d.fetch == fetch,
            d.block == block,
            d.original@ == m2.bytes_at(rt as int, fetch as nat),
            d.window@ == m2.window_at(rt as int, PREFETCH_INST_SIZE as int),
            forall|i: int|
                0 <= i < s2.regions.regions@.len() ==> (rt + fetch <= (
                #[trigger] s2.regions.regions@[i]).base || s2.regions.regions@[i].base
                    + DETOUR_REGION_SIZE <= rt),
            forall|t2: u64|
                #[trigger] s1.table().contains_key(t2) ==> (s1.table()[t2].target + s1.table()[
                t2].fetch <= rt || rt + fetch <= s1.table()[t2].target),
            jmp_reachable(rt as int, rd as int),
            jmpd.len() == 5,
            jmpd == jmp_bytes(rt as int, rd as int),
            tail == jmp_bytes(block.addr + fetch, rt + fetch),
            mf.wf(),
            mf.segs@.len() == m2.segs@.len(),
            forall|t: int|
                0 <= t < m2.segs@.len() ==> (#[trigger] mf.segs@[t]).base == m2.segs@[t].base
                    && mf.segs@[t].bytes@.len() == m2.segs@[t].bytes@.len(),
            forall|x: int| m2.addr_in(x) ==> #[trigger] mf.writable_at(x) == m2.writable_at(x),
            forall|x: int|
                m2.addr_in(x) ==> #[trigger] mf.byte_at(x) == (if rt <= x < rt + 5 {
                    jmpd[x - rt]
                } else if block.addr <= x < block.addr + fetch {
                    d.original@[x - block.addr]
                } else if block.addr + fetch <= x < block.addr + fetch + 5 {
                    tail[x - (block.addr + fetch)]
                } else {
                    m2.byte_at(x)
                }),
            self.detours.regions == s2.regions,
            self.detours.table() == s1.table().insert(rt, d),
            self.detours.targets@ == s1.targets@.push(rt),
        ensures
            forall|t2: u64|
                #[trigger] self.detours.table().contains_key(t2) && t2 != rt
                    ==> self.detours.table()[t2].target == t2 && detour_ok(
                    self.detours.regions,
                    mf,
                    self.detours.table()[t2],
                ),
    {
        let sf = self.detours;
        let ri = block.region_index as int;
        let si = block.slot_index as int;
        m2.lemma_layout_stable(mf);
        s2.regions.lemma_wf_with_stable(m2, mf);
        s2.regions.lemma_wf_with_gives_slot(m2, block);
        assert forall|x: int|
            block.addr <= x < block.addr + fetch + 5 implies !(rt <= x < rt + fetch) && m2.addr_in(
                x,
            ) by {
            assert(s2.regions.in_region_range(x));
            let i = choose|i: int|
                0 <= i < s2.regions.regions@.len() && (#[trigger] s2.regions.regions@[i]).base <= x
                    < s2.regions.regions@[i].base + DETOUR_REGION_SIZE;
        }
        assert forall|t2: u64|
            #[trigger] sf.table().contains_key(t2) && t2 != rt implies sf.table()[t2].target == t2
            && detour_ok(sf.regions, mf, sf.table()[t2]) by {
        // Every previously installed record carries over untouched.
            if t2 != rt {
                let d2 = s1.table()[t2];
                assert(sf.table()[t2] == d2);
                assert(detour_ok(s1.regions, m1, d2));
                let ri2 = d2.block.region_index as int;
                let si2 = d2.block.slot_index as int;
                // Slot bookkeeping survives.
                assert(ri2 != ri || si2 != si) by {
                    if ri2 == ri && si2 == si {
                        if ri < s1.regions.regions@.len() {
                            assert(!s1.regions.regions@[ri].state@[si]);
                        }
                    }
                }
                assert(s2.regions.regions@[ri2].state@[si2]) by {
                    if ri2 == ri {
                        assert(ri < s1.regions.regions@.len());
                        assert(s2.regions.regions@[ri].state@
                            == s1.regions.regions@[ri].state@.update(si, true));
                    } else {
                        assert(s2.regions.regions@[ri2] == s1.regions.regions@[ri2]);
                    }
                }
                assert forall|i: int|
                    0 <= i < s1.regions.regions@.len() implies (
                #[trigger] s2.regions.regions@[i]).base == s1.regions.regions@[i].base by {
                    if i != ri {
                        assert(s2.regions.regions@[i] == s1.regions.regions@[i]);
                    }
                }
                // A fresh region grew out of memory that was free while
                // d2's target range was mapped.
                assert forall|i: int|
                    s1.regions.regions@.len() <= i < s2.regions.regions@.len() implies (d2.target
                    + d2.fetch <= (#[trigger] s2.regions.regions@[i]).base
                    || s2.regions.regions@[i].base + DETOUR_REGION_SIZE <= d2.target) by {
                    let pb = s2.regions.regions@[i].base;
                    assert(fresh_region_at(m1, m2, pb));
                    if d2.target + d2.fetch > pb && pb + DETOUR_REGION_SIZE > d2.target {
                        let x: int = if d2.target >= pb {
                            d2.target as int
                        } else {
                            pb as int
                        };
                        let sj = choose|sj: int|
                            0 <= sj < m1.segs@.len() && (#[trigger] m1.segs@[sj]).contains_range(
                                d2.target as int,
                                d2.fetch as int,
                            );
                        assert(m1.segs@[sj].contains(x));
                        assert(m1.addr_in(x));
                        assert(false);
                    }
                }
                // Ranges stay mapped.
                assert forall|x: int, n: int| #[trigger] m1.range_in(x, n) implies mf.range_in(
                    x,
                    n,
                ) by {
                    if block.region_index < s1.regions.regions@.len() {
                        m1.lemma_same_segs(m2);
                    } else {
                        lemma_fresh_keeps_range(
                            m1,
                            m2,
                            s2.regions.regions@[block.region_index as int].base,
                        );
                    }
                    assert(m2.range_in(x, n));
                }
                // d2's own bytes are untouched: its target range avoids the
                // patched range and every region; its slot differs from the
                // new one.
                s1.lemma_slot_range(m1, ri2, si2);
                assert(d2.target + d2.fetch <= rt || rt + fetch <= d2.target);
                assert forall|x: int| d2.target <= x < d2.target + d2.fetch implies #[trigger] mf
                    .byte_at(x) == m1.byte_at(x) by {
                    let sj = choose|sj: int|
                        0 <= sj < m1.segs@.len() && (#[trigger] m1.segs@[sj]).contains_range(
                            d2.target as int,
                            d2.fetch as int,
                        );
                    assert(m1.segs@[sj].contains(x));
                    assert(m1.addr_in(x));
                    assert(m2.addr_in(x));
                    assert(!(rt <= x < rt + 5));
                    assert(!(block.addr <= x < block.addr + fetch + 5)) by {
                        if block.addr <= x < block.addr + fetch + 5 {
                            assert(s2.regions.in_region_range(x));
                            let i = choose|i: int|
                                0 <= i < s2.regions.regions@.len() && (
                                #[trigger] s2.regions.regions@[i]).base <= x
                                    < s2.regions.regions@[i].base + DETOUR_REGION_SIZE;
                            if i < s1.regions.regions@.len() {
                                assert(d2.target + d2.fetch <= s1.regions.regions@[i].base
                                    || s1.regions.regions@[i].base + DETOUR_REGION_SIZE
                                    <= d2.target);
                                assert(s2.regions.regions@[i].base == s1.regions.regions@[i].base);
                            } else {
                                assert(d2.target + d2.fetch <= s2.regions.regions@[i].base
                                    || s2.regions.regions@[i].base + DETOUR_REGION_SIZE
                                    <= d2.target);
                            }
                        }
                    }
                }
                // The new slot and d2's slot never overlap.
                assert(d2.block.addr + d2.fetch + 5 <= block.addr || block.addr + fetch + 5
                    <= d2.block.addr) by {
                    if ri2 == ri {
                        assert(ri < s1.regions.regions@.len());
                        assert(s2.regions.regions@[ri].base == s1.regions.regions@[ri].base);
                        if si2 < si {
                            assert(d2.block.addr + TRAMPOLINE_SIZE <= block.addr);
                        } else {
                            assert(block.addr + TRAMPOLINE_SIZE <= d2.block.addr);
                        }
                    } else {
                        // Distinct regions are mapped by distinct, disjoint
                        // segments.
                        let b1 = s1.regions.regions@[ri2].base;
                        let b2 = s2.regions.regions@[ri].base;
                        let j1 = choose|j1: int|
                            0 <= j1 < m2.segs@.len() && (#[trigger] m2.segs@[j1]).base == b1
                                && m2.segs@[j1].bytes@.len() == DETOUR_REGION_SIZE;
                        let j2 = choose|j2: int|
                            0 <= j2 < m2.segs@.len() && (#[trigger] m2.segs@[j2]).base == b2
                                && m2.segs@[j2].bytes@.len() == DETOUR_REGION_SIZE;
                        assert(s2.regions.regions@[ri2].base == b1);
                        assert(b1 != b2);
                        assert(j1 != j2);
                        if j1 < j2 {
                            assert(m2.segs@[j1].end() <= m2.segs@[j2].base);
                        } else {
                            assert(m2.segs@[j2].end() <= m2.segs@[j1].base);
                        }
                    }
                }
                assert forall|x: int|
                    d2.block.addr <= x < d2.block.addr + d2.fetch + 5 implies #[trigger] mf
                    .byte_at(x) == m1.byte_at(x) by {
                    let sj = choose|sj: int|
                        0 <= sj < m1.segs@.len() && (#[trigger] m1.segs@[sj]).contains_range(
                            d2.block.addr as int,
                            TRAMPOLINE_SIZE as int,
                        );
                    assert(m1.segs@[sj].contains(x));
                    assert(m1.addr_in(x));
                    assert(m2.addr_in(x));
                    assert(!(rt <= x < rt + 5)) by {
                        let b1 = s1.regions.regions@[ri2].base;
                        assert(b1 <= x < b1 + DETOUR_REGION_SIZE);
                        assert(s2.regions.regions@[ri2].base == b1);
                        assert(rt + fetch <= b1 || b1 + DETOUR_REGION_SIZE <= rt);
                    }
                    assert(!(block.addr <= x < block.addr + fetch + 5));
                }
                lemma_detour_carry(s1.regions, sf.regions, m1, mf, d2);
            }
        }
    }

    /// Commit a finished installation: with the new record inserted, the
    /// whole collection is sound again in the patched memory.
    #[verifier::rlimit(100)]
    #[verifier::spinoff_prover]
    proof fn lemma_attach_commit(
        self,
        s1: Detours,
        s2: Detours,
        m1: Memory,
        m2: Memory,
        mf: Memory,
        block: Block,
        rt: u64,
        rd: u64,
        fetch: usize,
        d: Detour,
        jmpd: Seq<u8>,
        tail: Seq<u8>,
    )
        requires
            s1.wf(m1),
            s1.regions_unlocked(m1),
            !s1.table().contains_key(rt),
            alloc_block_post(s1.regions, s2.regions, m1, m2, rt, block),
            m2.wf(),
            s2.regions.wf_with(m2),
            mem_preserved(m1, m2),
            NEEDED_BYTES <= fetch < NEEDED_BYTES + MAX_INST_LEN,
            fetch as int <= u64::MAX - rt,
            m2.range_in(rt as int, fetch as int),
            m1.range_in(rt as int, fetch as int),
            spec_prologue_fetch(m2, rt) == Some(fetch as nat),
            d.target == rt,
            d.detour == rd,
            d.fetch == fetch,
            d.block == block,
            d.original@ == m2.bytes_at(rt as int, fetch as nat),
            d.window@ == m2.window_at(rt as int, PREFETCH_INST_SIZE as int),
            forall|i: int|
                0 <= i < s2.regions.regions@.len() ==> (rt + fetch <= (
                #[trigger] s2.regions.regions@[i]).base || s2.regions.regions@[i].base
                    + DETOUR_REGION_SIZE <= rt),
            forall|t2: u64|
                #[trigger] s1.table().contains_key(t2) ==> (s1.table()[t2].target + s1.table()[
                t2].fetch <= rt || rt + fetch <= s1.table()[t2].target),
            jmp_reachable(rt as int, rd as int),
            jmpd.len() == 5,
            jmpd == jmp_bytes(rt as int, rd as int),
            tail == jmp_bytes(block.addr + fetch, rt + fetch),
            mf.wf(),
            mf.segs@.len() == m2.segs@.len(),
            forall|t: int|
                0 <= t < m2.segs@.len() ==> (#[trigger] mf.segs@[t]).base == m2.segs@[t].base
                    && mf.segs@[t].bytes@.len() == m2.segs@[t].bytes@.len(),
            forall|x: int| m2.addr_in(x) ==> #[trigger] mf.writable_at(x) == m2.writable_at(x),
            forall|x: int|
                m2.addr_in(x) ==> #[trigger] mf.byte_at(x) == (if rt <= x < rt + 5 {
                    jmpd[x - rt]
                } else if block.addr <= x < block.addr + fetch {
                    d.original@[x - block.addr]
                } else if block.addr + fetch <= x < block.addr + fetch + 5 {
                    tail[x - (block.addr + fetch)]
                } else {
                    m2.byte_at(x)
                }),
            self.detours.regions == s2.regions,
            self.detours.table() == s1.table().insert(rt, d),
            self.detours.targets@ == s1.targets@.push(rt),
        ensures
            self.detours.wf(mf),
            self.detours.regions_unlocked(mf),
            forall|x: int|
                m1.addr_in(x) && !(rt <= x < rt + fetch) && !self.detours.regions.in_region_range(
                    x,
                ) ==> #[trigger] mf.byte_at(x) == m1.byte_at(x),
{
        let sf = self.detours;
        let ri = block.region_index as int;
        let si = block.slot_index as int;
        m2.lemma_layout_stable(mf);
        s2.regions.lemma_wf_with_stable(m2, mf);
        s2.regions.lemma_wf_with_gives_slot(m2, block);
        // The slot never crosses into the patched target bytes.
        assert forall|x: int|
            block.addr <= x < block.addr + fetch + 5 implies !(rt <= x < rt + fetch) && m2.addr_in(
                x,
            ) by {
            assert(s2.regions.in_region_range(x));
            let i = choose|i: int|
                0 <= i < s2.regions.regions@.len() && (#[trigger] s2.regions.regions@[i]).base <= x
                    < s2.regions.regions@[i].base + DETOUR_REGION_SIZE;
        }
        // The target list stays duplicate-free and mirrors the table.
        assert(!s1.targets@.contains(rt));
        lemma_targets_push(s1.targets@, rt);
        assert forall|t: u64| sf.table().contains_key(t) <==> #[trigger] sf.targets@.contains(
            t,
        ) by {
            if t != rt {
                assert(sf.table().contains_key(t) == s1.table().contains_key(t));
            }
        }
        self.lemma_commit_new(s1, s2, m1, m2, mf, block, rt, rd, fetch, d, jmpd, tail);
        self.lemma_commit_carry(s1, s2, m1, m2, mf, block, rt, rd, fetch, d, jmpd, tail);
        assert forall|t2: u64| #[trigger] sf.table().contains_key(t2) implies sf.table()[
        t2].target == t2 && detour_ok(sf.regions, mf, sf.table()[t2]) by {
            if t2 != rt {
                assert(sf.table().contains_key(t2) && t2 != rt);
            }
        }
        // Every occupied slot belongs to a live record.
        assert forall|i: int, j: int|
            0 <= i < sf.regions.regions@.len() && 0 <= j < BLOCK_COUNT && (
            #[trigger] sf.regions.regions@[i].state@[j]) implies exists|t2: u64|
            #[trigger] sf.table().contains_key(t2) && sf.table()[t2].block.region_index == i
                && sf.table()[t2].block.slot_index == j by {
            if i == ri && j == si {
                assert(sf.table().contains_key(rt) && sf.table()[rt].block.region_index == i
                    && sf.table()[rt].block.slot_index == j);
            } else if i < s1.regions.regions@.len() {
                assert(s1.regions.regions@[i].state@[j]) by {
                    if i == ri {
                        assert(s2.regions.regions@[i].state@
                            == s1.regions.regions@[i].state@.update(si, true));
                    } else {
                        assert(s2.regions.regions@[i] == s1.regions.regions@[i]);
                    }
                }
                let t2 = choose|t2: u64|
                    #[trigger] s1.table().contains_key(t2) && s1.table()[t2].block.region_index
                        == i && s1.table()[t2].block.slot_index == j;
                assert(sf.table().contains_key(t2));
            } else {
                assert(i == block.region_index as int);
                assert(s2.regions.regions@[i].state@ == Seq::new(
                    BLOCK_COUNT as nat,
                    |t: int| false,
                ).update(0, true));
                assert(false);
            }
        }
        // Regions stay writable.
        assert forall|x: int| #[trigger] sf.regions.in_region_range(x) implies mf.addr_in(x)
            && mf.writable_at(x) by {
            let i = choose|i: int|
                0 <= i < sf.regions.regions@.len() && (#[trigger] sf.regions.regions@[i]).base <= x
                    < sf.regions.regions@[i].base + DETOUR_REGION_SIZE;
            if i < s1.regions.regions@.len() {
                assert(s2.regions.regions@[i].base == s1.regions.regions@[i].base) by {
                    if i != ri {
                        assert(s2.regions.regions@[i] == s1.regions.regions@[i]);
                    }
                }
                assert(s1.regions.in_region_range(x)) by {
                    assert(s1.regions.regions@[i].base <= x < s1.regions.regions@[i].base
                        + DETOUR_REGION_SIZE);
                }
                assert(m1.addr_in(x) && m1.writable_at(x));
                assert(m2.byte_at(x) == m1.byte_at(x));
            } else {
                let pb = s2.regions.regions@[i].base;
                assert(fresh_region_at(m1, m2, pb));
                assert(pb <= x < pb + DETOUR_REGION_SIZE);
                lemma_fresh_slot_byte(m1, m2, pb, x);
            }
        }
        // Bytes away from the patch and the regions are untouched.
        assert forall|x: int|
            m1.addr_in(x) && !(rt <= x < rt + fetch) && !sf.regions.in_region_range(x) implies
            #[trigger] mf.byte_at(x) == m1.byte_at(x) by {
            assert(m2.addr_in(x));
            assert(!(block.addr <= x < block.addr + fetch + 5)) by {
                if block.addr <= x < block.addr + fetch + 5 {
                    assert(s2.regions.in_region_range(x));
                    let i = choose|i: int|
                        0 <= i < s2.regions.regions@.len() && (
                        #[trigger] s2.regions.regions@[i]).base <= x < s2.regions.regions@[i].base
                            + DETOUR_REGION_SIZE;
                    assert(sf.regions.regions@[i].base == s2.regions.regions@[i].base);
                    assert(sf.regions.in_region_range(x)) by {
                        assert(sf.regions.regions@[i].base <= x < sf.regions.regions@[i].base
                            + DETOUR_REGION_SIZE);
                    }
                }
            }
        }
    }

    /// Whether hooking `fetch` bytes at `rt` would collide with a region or
    /// with an already-installed hook elsewhere.
    fn target_collides(&self, rt: u64, fetch: usize) -> (r: bool)
        requires
            forall|t: u64|
                self.detours.table().contains_key(t) <==> #[trigger] self.detours.targets@.contains(
                    t,
                ),
            fetch as int <= u64::MAX - rt,
        ensures
            r == ({
                ||| exists|i: int|
                    0 <= i < self.detours.regions.regions@.len() && !(rt + fetch <= (
                    #[trigger] self.detours.regions.regions@[i]).base
                        || self.detours.regions.regions@[i].base + DETOUR_REGION_SIZE <= rt)
                ||| exists|t2: u64|
                    #[trigger] self.detours.table().contains_key(t2) && !(self.detours.table()[
                    t2].target + self.detours.table()[t2].fetch <= rt || rt + fetch
                        <= self.detours.table()[t2].target)
            }),
    {
        let n = self.detours.regions.regions.len();
        let mut i: usize = 0;
        while i < n
            invariant
                n == self.detours.regions.regions@.len(),
                i <= n,
                fetch as int <= u64::MAX - rt,
                forall|k: int|
                    0 <= k < i ==> (rt + fetch <= (
                    #[trigger] self.detours.regions.regions@[k]).base
                        || self.detours.regions.regions@[k].base + DETOUR_REGION_SIZE <= rt),
            decreases n - i,
        {
            let base = self.detours.regions.regions[i].base;
            let no_hit = base >= rt + fetch as u64 || (rt >= base && rt - base
                >= DETOUR_REGION_SIZE);
            if !no_hit {
                return true;
            }
            i = i + 1;
        }
        let m = self.detours.targets.len();
        let mut k: usize = 0;
        while k < m
            invariant
                m == self.detours.targets@.len(),
                k <= m,
                fetch as int <= u64::MAX - rt,
                forall|t: u64|
                    self.detours.table().contains_key(t) <==> #[trigger] self.detours.targets@.contains(
                        t,
                    ),
                forall|j: int|
                    0 <= j < k ==> {
                        let t2 = #[trigger] self.detours.targets@[j];
                        self.detours.table().contains_key(t2) ==> (self.detours.table()[t2].target
                            + self.detours.table()[t2].fetch <= rt || rt + fetch
                            <= self.detours.table()[t2].target)
                    },
            decreases m - k,
        {
            let t2 = self.detours.targets[k];
            proof {
                assert(self.detours.targets@.contains(t2));
            }
            match self.detours.detours.get(&t2) {
                None => {
                    proof {
                        assert(false);
                    }
                },
                Some(d2) => {
                    let upper_wraps = d2.fetch as u64 > u64::MAX - d2.target;
                    let c1 = if upper_wraps {
                        true
                    } else {
                        rt < d2.target + d2.fetch as u64
                    };
                    let c2 = d2.target < rt + fetch as u64;
                    if c1 && c2 {
                        return true;
                    }
                },
            }
            k = k + 1;
        }
        proof {
            assert forall|t2: u64| #[trigger] self.detours.table().contains_key(t2) implies (
            self.detours.table()[t2].target + self.detours.table()[t2].fetch <= rt || rt + fetch
                <= self.detours.table()[t2].target) by {
                assert(self.detours.targets@.contains(t2));
                let j = choose|j: int|
                    0 <= j < self.detours.targets@.len() && self.detours.targets@[j] == t2;
            }
        }
        false
    }


    /// Install a hook keyed by a typed pointer's address: the same as
    /// [`DetoursGuard::attach`] with the pointer's wrapped address as the
    /// raw target.
    pub fn attach_ptr<const ADDR: u64>(
        &mut self,
        mem: &mut Memory,
        target: &crate::ext::Pointer<ADDR>,
        detour_raw: u64,
    ) -> (r: Result<(), Error>)
        requires
            old(mem).wf(),
            old(self).detours.wf(*old(mem)),
            old(self).detours.regions_unlocked(*old(mem)),
        ensures
            final(mem).wf(),
            final(self).detours.wf(*final(mem)),
            final(self).detours.regions_unlocked(*final(mem)),
            final(mem).dynamic_code_blocked == old(mem).dynamic_code_blocked,
            r is Ok || r == Err::<(), Error>(Error::InvalidAddress) || r == Err::<(), Error>(
                Error::NotEnoughMemory,
            ),
            (ADDR == 0 || detour_raw == 0) ==> r == Err::<(), Error>(Error::InvalidAddress)
                && *final(self) == *old(self) && *final(mem) == *old(mem),
            ({
                let rt = spec_skip_jmp(*old(mem), spec_decode_at(*old(mem), ADDR, 0xe));
                let rd = spec_skip_jmp(*old(mem), spec_decode_at(*old(mem), detour_raw, 0xe));
                &&& (ADDR != 0 && detour_raw != 0 && rt == rd ==> r == Err::<(), Error>(
                    Error::InvalidAddress,
                ) && *final(self) == *old(self) && *final(mem) == *old(mem))
                &&& (ADDR != 0 && detour_raw != 0 && rt != rd ==> {
                    let rt64 = rt as u64;
                    let rd64 = rd as u64;
                    &&& (r is Ok <==> final(self).detours.table().contains_key(rt64))
                    &&& forall|t: u64|
                        t != rt64 ==> (#[trigger] final(self).detours.table().contains_key(t)
                            == old(self).detours.table().contains_key(t)) && (old(
                            self,
                        ).detours.table().contains_key(t) ==> final(self).detours.table()[t] == old(
                            self,
                        ).detours.table()[t])
                    &&& (r is Ok ==> {
                        let d = final(self).detours.table()[rt64];
                        &&& d.target == rt64
                        &&& d.detour == rd64
                        &&& NEEDED_BYTES <= d.fetch < NEEDED_BYTES + MAX_INST_LEN
                        &&& (!old(self).detours.table().contains_key(rt64) ==> Some(d.fetch as nat)
                            == spec_prologue_fetch(*old(mem), rt64) && d.original@ == old(
                            mem,
                        ).bytes_at(rt, d.fetch as nat))
                        &&& (!old(self).detours.table().contains_key(rt64) ==> forall|x: int|
                            old(mem).addr_in(x) && !(rt <= x < rt + d.fetch)
                                && !final(self).detours.regions.in_region_range(x)
                                ==> #[trigger] final(mem).byte_at(x) == old(mem).byte_at(x))
                    })
                    &&& (!old(self).detours.table().contains_key(rt64) && spec_prologue_fetch(
                        *old(mem),
                        rt64,
                    ) is None ==> r is Err)
                    &&& (!old(self).detours.table().contains_key(rt64) && spec_prologue_fetch(
                        *old(mem),
                        rt64,
                    ) is Some && !jmp_reachable(rt, rd) ==> r == Err::<(), Error>(
                        Error::NotEnoughMemory,
                    ))
                    &&& (old(self).detours.regions.regions@.len() == 0 && old(
                        mem,
                    ).dynamic_code_blocked ==> r == Err::<(), Error>(Error::NotEnoughMemory)
                        && final(self).detours.regions.regions@.len() == 0 && final(mem).segs@
                        == old(mem).segs@)
                    &&& (!old(self).detours.table().contains_key(rt64) && spec_install_viable(
                        old(self).detours,
                        *old(mem),
                        rt64,
                        rd64,
                    ) ==> r is Ok)
                    &&& (!old(self).detours.table().contains_key(rt64) && old(
                        mem,
                    ).dynamic_code_blocked && spec_fast_slot(
                        old(self).detours.regions,
                        *old(mem),
                        rt64,
                    ) is None ==> r == Err::<(), Error>(Error::NotEnoughMemory)
                        && final(self).detours.regions.regions@
                        == old(self).detours.regions.regions@ && final(mem).segs@ == old(
                        mem,
                    ).segs@)
                    &&& (r is Err && !old(self).detours.table().contains_key(rt64)
                        ==> forall|x: int|
                        old(mem).addr_in(x) ==> #[trigger] final(mem).byte_at(x) == old(
                            mem,
                        ).byte_at(x))
                    &&& (r is Err && old(self).detours.table().contains_key(rt64) ==> ({
                        let dd = old(self).detours.table()[rt64];
                        forall|x: int|
                            old(mem).addr_in(x) ==> #[trigger] final(mem).byte_at(x)
                                == if dd.target <= x < dd.target + dd.fetch {
                                dd.original@[x - dd.target]
                            } else {
                                old(mem).byte_at(x)
                            }
                    }))
                })
            }),
            forall|x: int|
                old(mem).addr_in(x) ==> #[trigger] final(mem).writable_at(x) == old(
                    mem,
                ).writable_at(x),
    {
        let a = target.raw_addr();
        self.attach(mem, a, detour_raw)
    }

    /// Remove the hook at `address`, if one is installed: the original
    /// prologue bytes are copied back from the trampoline and the slot is
    /// returned to its region. Detaching an unhooked address does nothing.
    #[verifier::rlimit(100)]
    pub fn detach(&mut self, mem: &mut Memory, address: &u64)
        requires
            old(mem).wf(),
            old(self).detours.wf(*old(mem)),
            old(self).detours.regions_unlocked(*old(mem)),
        ensures
            final(mem).wf(),
            final(self).detours.wf(*final(mem)),
            final(self).detours.regions_unlocked(*final(mem)),
            final(mem).dynamic_code_blocked == old(mem).dynamic_code_blocked,
            final(mem).segs@.len() == old(mem).segs@.len(),
            forall|x: int| final(mem).addr_in(x) == old(mem).addr_in(x),
            forall|x: int|
                old(mem).addr_in(x) ==> #[trigger] final(mem).writable_at(x) == old(
                    mem,
                ).writable_at(x),
            final(self).detours.table() == old(self).detours.table().remove(*address),
            final(self).detours.targets@.len() == old(self).detours.targets@.len() - (if old(
                self,
            ).detours.table().contains_key(*address) {
                1int
            } else {
                0int
            }),
            final(self).detours.regions.regions@.len() == old(
                self,
            ).detours.regions.regions@.len(),
            !old(self).detours.table().contains_key(*address) ==> *final(self) == *old(self)
                && *final(mem) == *old(mem),
            old(self).detours.table().contains_key(*address) ==> {
                let d = old(self).detours.table()[*address];
                &&& forall|x: int|
                    old(mem).addr_in(x) ==> #[trigger] final(mem).byte_at(x) == if d.target <= x
                        < d.target + d.fetch {
                        d.original@[x - d.target]
                    } else {
                        old(mem).byte_at(x)
                    }
                &&& forall|i: int|
                    0 <= i < old(self).detours.regions.regions@.len() && i != d.block.region_index
                        ==> final(self).detours.regions.regions@[i] == old(
                        self,
                    ).detours.regions.regions@[i]
                &&& final(self).detours.regions.regions@[d.block.region_index as int].base == old(
                    self,
                ).detours.regions.regions@[d.block.region_index as int].base
                &&& final(self).detours.regions.regions@[d.block.region_index as int].state@
                    == old(self).detours.regions.regions@[d.block.region_index as int].state@.update(
                    d.block.slot_index as int,
                    false,
                )
            },
    {
        let ghost s0: Detours = self.detours;
        let ghost m0: Memory = *mem;
        if !self.detours.detours.contains_key(address) {
            proof {
                assert(s0.table().remove(*address) =~= s0.table());
            }
            return ;
        }
        let d = match self.detours.detours.remove(address) {
            None => {
                proof {
                    assert(false);
                }
                return ;
            },
            Some(d) => d,
        };
        proof {
            assert(s0.table().contains_key(*address));
            assert(d == s0.table()[*address]);
            assert(detour_ok(s0.regions, m0, d));
        }
        // Drop the target from the target list.
        let n = self.detours.targets.len();
        let mut k: usize = 0;
        let mut found: bool = false;
        while k < n && !found
            invariant
                n == self.detours.targets@.len(),
                k <= n,
                self.detours.targets@ == s0.targets@,
                found ==> k < n && self.detours.targets@[k as int] == *address,
                !found ==> forall|i: int| 0 <= i < k ==> self.detours.targets@[i] != *address,
            decreases n - k + (if found {
                0int
            } else {
                1int
            }),
        {
            if self.detours.targets[k] == *address {
                found = true;
            } else {
                k = k + 1;
            }
        }
        proof {
            assert(s0.targets@.contains(*address));
            if !found {
                let i = choose|i: int| 0 <= i < s0.targets@.len() && s0.targets@[i] == *address;
                assert(false);
            }
            lemma_targets_remove(s0.targets@, k as int, *address);
        }
        self.detours.targets.remove(k);
        // Copy the saved prologue back over the target.
        let w = match mem.read_bytes(d.block.addr, d.fetch) {
            None => {
                proof {
                    assert(false);
                }
                return ;
            },
            Some(w) => w,
        };
        proof {
            assert(w@ == d.original@);
        }
        let ghost m1: Memory = *mem;
        let protector = match MemoryProtector::new(mem, d.target, d.fetch) {
            Err(_) => {
                proof {
                    assert(false);
                }
                return ;
            },
            Ok(p) => p,
        };
        let ghost m2: Memory = *mem;
        let written = protector.write_override(mem, &w);
        let ghost m3: Memory = *mem;
        let res = protector.restore(mem);
        proof {
            assert(written == d.fetch);
        }
        // Return the slot to its region.
        let freed = self.detours.regions.free_block(&d.block);
        proof {
            let sf = self.detours;
            let mf = *mem;
            let t = d.target as int;
            let f = d.fetch as int;
            let ri = d.block.region_index as int;
            let si = d.block.slot_index as int;
            // The memory hops kept the layout; compose them.
            m0.lemma_layout_stable(m2);
            m0.lemma_layout_stable(m3);
            m0.lemma_layout_stable(mf);
            // Bytes: exactly [t, t + f) changed, to the saved prologue.
            assert forall|x: int| m0.addr_in(x) implies #[trigger] mf.byte_at(x) == (if t <= x < t
                + f {
                d.original@[x - t]
            } else {
                m0.byte_at(x)
            }) by {}
            // Protection: the flip was restored byte for byte.
            assert forall|x: int| m0.addr_in(x) implies #[trigger] mf.writable_at(x)
                == m0.writable_at(x) by {
                if m2.idx_of(x) == m2.idx_of(t) {
                    assert(m0.idx_of(x) == m0.idx_of(t));
                    assert(m0.writable_at(x) == m0.writable_at(t));
                }
            }
            // The freed slot's region keeps every other detour intact.
            assert forall|t2: u64| #[trigger] sf.table().contains_key(t2) implies sf.table()[
            t2].target == t2 && detour_ok(sf.regions, mf, sf.table()[t2]) by {
                let d2 = sf.table()[t2];
                assert(t2 != *address);
                assert(s0.table().contains_key(t2) && s0.table()[t2] == d2);
                assert(detour_ok(s0.regions, m0, d2));
                assert(d2.block.region_index != d.block.region_index || d2.block.slot_index
                    != d.block.slot_index);
                // Bookkeeping: the slot bit of d2 survives the free.
                assert(sf.regions.regions@[d2.block.region_index as int].state@[d2.block.slot_index as int]);
                assert(sf.regions.regions@[d2.block.region_index as int].base
                    == s0.regions.regions@[d2.block.region_index as int].base);
                // Memory: d2's ranges are disjoint from the restored range.
                assert(d2.target + d2.fetch <= t || t + f <= d2.target);
                let ri2 = d2.block.region_index as int;
                let si2 = d2.block.slot_index as int;
                let rb = s0.regions.regions@[ri2].base;
                s0.lemma_slot_range(m0, ri2, si2);
                assert(t + f <= rb || rb + DETOUR_REGION_SIZE <= t);
                assert forall|x: int| d2.target <= x < d2.target + d2.fetch implies
                    #[trigger] mf.byte_at(x) == m0.byte_at(x) by {
                    let i = choose|i: int|
                        0 <= i < m0.segs@.len() && (#[trigger] m0.segs@[i]).contains_range(
                            d2.target as int,
                            d2.fetch as int,
                        );
                    assert(m0.segs@[i].contains(x));
                    assert(m0.addr_in(x));
                    assert(!(t <= x < t + f));
                }
                assert forall|x: int| d2.block.addr <= x < d2.block.addr + d2.fetch + 5 implies
                    #[trigger] mf.byte_at(x) == m0.byte_at(x) by {
                    let i = choose|i: int|
                        0 <= i < m0.segs@.len() && (#[trigger] m0.segs@[i]).contains_range(
                            d2.block.addr as int,
                            TRAMPOLINE_SIZE as int,
                        );
                    assert(m0.segs@[i].contains(x));
                    assert(m0.addr_in(x));
                    assert(rb <= x < rb + DETOUR_REGION_SIZE);
                    assert(!(t <= x < t + f));
                }
                m0.lemma_range_narrow(d2.target as int, d2.fetch as int, d2.target + 5, d2.fetch - 5);
                m0.lemma_range_narrow(
                    d2.block.addr as int,
                    TRAMPOLINE_SIZE as int,
                    d2.block.addr as int,
                    d2.fetch as int,
                );
                m0.lemma_range_narrow(
                    d2.block.addr as int,
                    TRAMPOLINE_SIZE as int,
                    d2.block.addr + d2.fetch,
                    5,
                );
                m0.lemma_bytes_at_stable_if(mf, d2.target as int, 5);
                m0.lemma_bytes_at_stable_if(mf, d2.target + 5, (d2.fetch - 5) as nat);
                m0.lemma_bytes_at_stable_if(mf, d2.block.addr as int, d2.fetch as nat);
                m0.lemma_bytes_at_stable_if(mf, d2.block.addr + d2.fetch, 5);
            }
            // Region soundness carries to the final memory.
            assert(sf.regions.regions@.len() == s0.regions.regions@.len());
            assert forall|i: int| 0 <= i < sf.regions.regions@.len() implies (
            #[trigger] sf.regions.regions@[i]).wf() && region_mapped(
                mf,
                sf.regions.regions@[i].base,
            ) by {
                assert(sf.regions.regions@[i].base == s0.regions.regions@[i].base);
                assert(region_mapped(m0, s0.regions.regions@[i].base));
                let j = choose|j: int|
                    0 <= j < m0.segs@.len() && (#[trigger] m0.segs@[j]).base
                        == s0.regions.regions@[i].base && m0.segs@[j].bytes@.len()
                        == DETOUR_REGION_SIZE;
                assert(mf.segs@[j].base == m0.segs@[j].base && mf.segs@[j].bytes@.len()
                    == m0.segs@[j].bytes@.len());
            }
            // Occupied slots still belong to live detours.
            assert forall|i: int, j: int|
                0 <= i < sf.regions.regions@.len() && 0 <= j < BLOCK_COUNT && (
                #[trigger] sf.regions.regions@[i].state@[j]) implies exists|t2: u64|
                #[trigger] sf.table().contains_key(t2) && sf.table()[t2].block.region_index == i
                    && sf.table()[t2].block.slot_index == j by {
                assert(s0.regions.regions@[i].state@[j]);
                let t2 = choose|t2: u64|
                    #[trigger] s0.table().contains_key(t2) && s0.table()[t2].block.region_index
                        == i && s0.table()[t2].block.slot_index == j;
                assert(t2 != *address);
                assert(sf.table().contains_key(t2));
            }
            // Regions stay writable: the restored target range touches none
            // of them.
            assert forall|x: int| #[trigger] sf.regions.in_region_range(x) implies mf.addr_in(x)
                && mf.writable_at(x) by {
                let i = choose|i: int|
                    0 <= i < sf.regions.regions@.len() && (#[trigger] sf.regions.regions@[i]).base
                        <= x < sf.regions.regions@[i].base + DETOUR_REGION_SIZE;
                assert(s0.regions.in_region_range(x)) by {
                    assert(s0.regions.regions@[i].base <= x < s0.regions.regions@[i].base
                        + DETOUR_REGION_SIZE);
                }
                assert(m0.addr_in(x) && m0.writable_at(x));
            }
            assert(sf.table() =~= s0.table().remove(*address));
        }
    }
}

} // verus!
