//! Executable-region allocation.
//!
//! Trampoline slots live in fixed-size regions of executable memory that
//! must be placed within the signed 32-bit displacement window of the code
//! they serve. The walk over candidate bases is decided by small pure
//! functions (so an embedder driving a real address space can take the very
//! same decisions); the drivers here run that walk against the modelled
//! [`Memory`].

use vstd::prelude::*;

use crate::error::Error;
use crate::inst::decode_instruction;
use crate::x86::{detour_find_jmp_bounds, lemma_bounds_reach, JmpBounds};
use crate::memory::{
    free_gap_of, lemma_next_base_above, lemma_seg_at_contains, mem_preserved, seg_at_from, valloc,
    vfree, vprotect, vquery, Memory, MemoryBasicInfo, Segment, MEM_TYPE_COMMIT, MEM_TYPE_FREE,
    MEM_TYPE_RESERVE, PAGE_FLAG_EXECUTE_READ, PAGE_FLAG_EXECUTE_READWRITE,
};

verus! {

/// Size of one executable region.
pub const DETOUR_REGION_SIZE: u64 = 0x10000;

/// The same size, as a byte count for allocation calls.
pub const DETOUR_REGION_BYTES: usize = 0x10000;

/// Size of one trampoline slot inside a region.
pub const TRAMPOLINE_SIZE: u64 = 32;

/// Number of trampoline slots a region is carved into.
pub const BLOCK_COUNT: usize = 2048;

/// First address of the reserved system band that region placement skips.
pub const SYSTEM_REGION_LO: u64 = 0x7000_0000;

/// Last address of the reserved system band.
pub const SYSTEM_REGION_HI: u64 = 0x8000_0000;

/// How far a walk jumps to clear the reserved system band.
pub const SYSTEM_BAND_SKIP: u64 = 0x0800_0000;

/// Whether `a` falls in the reserved system band.
pub open spec fn spec_in_system_band(a: int) -> bool {
    SYSTEM_REGION_LO <= a <= SYSTEM_REGION_HI
}

/// `x` rounded down to a region boundary.
pub open spec fn spec_round_down(x: int) -> int {
    x - (x % DETOUR_REGION_SIZE as int)
}

/// `x` rounded up to a region boundary.
pub open spec fn spec_round_up(x: int) -> int {
    if x % DETOUR_REGION_SIZE as int == 0 {
        x
    } else {
        x + (DETOUR_REGION_SIZE as int - x % DETOUR_REGION_SIZE as int)
    }
}

/// `pb_try` rounded down to a region boundary.
pub fn detour_alloc_round_down_to_region(pb_try: u64) -> (r: u64)
    ensures
        r == spec_round_down(pb_try as int),
        r as int % DETOUR_REGION_SIZE as int == 0,
        r <= pb_try < r + DETOUR_REGION_SIZE,
{
    let extra = pb_try % DETOUR_REGION_SIZE;
    if extra != 0 {
        pb_try - extra
    } else {
        pb_try
    }
}

/// `pb_try` rounded up to a region boundary.
pub fn detour_alloc_round_up_to_region(pb_try: u64) -> (r: u64)
    requires
        pb_try + DETOUR_REGION_SIZE <= u64::MAX as int + 1,
    ensures
        r == spec_round_up(pb_try as int),
        r as int % DETOUR_REGION_SIZE as int == 0,
        pb_try <= r < pb_try + DETOUR_REGION_SIZE,
{
    let extra = pb_try % DETOUR_REGION_SIZE;
    if extra != 0 {
        pb_try + (DETOUR_REGION_SIZE - extra)
    } else {
        pb_try
    }
}

/// Where a region-placement walk stands: about to probe an address, or out
/// of candidates.
pub enum SearchStep {
    Probe(u64),
    Fail,
}

/// A measure that shrinks as a downward walk advances.
pub open spec fn hi_step_measure(s: SearchStep) -> int {
    match s {
        SearchStep::Probe(p) => p + 1,
        SearchStep::Fail => 0,
    }
}

/// A measure that shrinks as an upward walk advances.
pub open spec fn lo_step_measure(s: SearchStep, range_end: int) -> int {
    match s {
        SearchStep::Probe(p) => if p < range_end {
            range_end - p
        } else {
            0
        },
        SearchStep::Fail => 0,
    }
}

/// Mirror of [`hi_normalize`].
pub open spec fn spec_hi_normalize(pb: int, range_start: int) -> SearchStep
    decreases pb,
{
    if spec_in_system_band(pb) {
        spec_hi_normalize(pb - SYSTEM_BAND_SKIP, range_start)
    } else if pb <= range_start {
        SearchStep::Fail
    } else {
        SearchStep::Probe(pb as u64)
    }
}

/// Settle a downward walk on its next probe address: skip below the
/// reserved system band, and stop once the walk has left the range.
pub fn hi_normalize(pb: u64, range_start: u64) -> (r: SearchStep)
    ensures
        r == spec_hi_normalize(pb as int, range_start as int),
        r matches SearchStep::Probe(p) ==> p <= pb && range_start < p && !spec_in_system_band(
            p as int,
        ),
    decreases pb,
{
    if SYSTEM_REGION_LO <= pb && pb <= SYSTEM_REGION_HI {
        hi_normalize(pb - SYSTEM_BAND_SKIP, range_start)
    } else if pb <= range_start {
        SearchStep::Fail
    } else {
        SearchStep::Probe(pb)
    }
}

/// Mirror of [`lo_normalize`].
pub open spec fn spec_lo_normalize(pb: int, range_end: int) -> SearchStep
    decreases (if range_end >= pb {
        range_end - pb
    } else {
        0
    }),
{
    if pb >= range_end {
        SearchStep::Fail
    } else if spec_in_system_band(pb) {
        if pb + SYSTEM_BAND_SKIP <= u64::MAX {
            spec_lo_normalize(pb + SYSTEM_BAND_SKIP, range_end)
        } else {
            SearchStep::Fail
        }
    } else {
        SearchStep::Probe(pb as u64)
    }
}

/// Settle an upward walk on its next probe address: skip above the
/// reserved system band, and stop once the walk has left the range.
pub fn lo_normalize(pb: u64, range_end: u64) -> (r: SearchStep)
    ensures
        r == spec_lo_normalize(pb as int, range_end as int),
        r matches SearchStep::Probe(p) ==> p >= pb && p < range_end && !spec_in_system_band(
            p as int,
        ),
    decreases (if range_end >= pb {
        range_end - pb
    } else {
        0
    }),
{
    if pb >= range_end {
        SearchStep::Fail
    } else if SYSTEM_REGION_LO <= pb && pb <= SYSTEM_REGION_HI {
        if pb <= u64::MAX - SYSTEM_BAND_SKIP {
            lo_normalize(pb + SYSTEM_BAND_SKIP, range_end)
        } else {
            SearchStep::Fail
        }
    } else {
        SearchStep::Probe(pb)
    }
}

/// First probe of a downward walk over `[range_start, range_end)`: one
/// region below the end of the range, settled.
pub fn hi_search_start(range_start: u64, range_end: u64) -> (r: SearchStep)
    ensures
        r matches SearchStep::Probe(p) ==> range_start < p && p + DETOUR_REGION_SIZE <= range_end
            && p as int % DETOUR_REGION_SIZE as int == 0 && !spec_in_system_band(p as int),
        r == (if range_end < DETOUR_REGION_SIZE {
            SearchStep::Fail
        } else {
            spec_hi_normalize(
                spec_round_down(range_end - DETOUR_REGION_SIZE),
                range_start as int,
            )
        }),
{
    if range_end < DETOUR_REGION_SIZE {
        return SearchStep::Fail;
    }
    let pb = detour_alloc_round_down_to_region(range_end - DETOUR_REGION_SIZE);
    match hi_normalize(pb, range_start) {
        SearchStep::Probe(p) => {
            proof {
                lemma_hi_normalize_keeps(pb as int, range_start as int);
            }
            SearchStep::Probe(p)
        },
        SearchStep::Fail => SearchStep::Fail,
    }
}

/// A settled downward probe keeps region alignment and its upper bound.
proof fn lemma_hi_normalize_keeps(pb: int, range_start: int)
    requires
        pb % DETOUR_REGION_SIZE as int == 0,
        0 <= pb <= u64::MAX,
    ensures
        spec_hi_normalize(pb, range_start) matches SearchStep::Probe(p) ==> p <= pb && p as int
            % DETOUR_REGION_SIZE as int == 0,
    decreases pb,
{
    if spec_in_system_band(pb) {
        assert((pb - SYSTEM_BAND_SKIP) % DETOUR_REGION_SIZE as int == 0) by {
            vstd::arithmetic::div_mod::lemma_mod_multiples_vanish(
                -0x800,
                pb,
                DETOUR_REGION_SIZE as int,
            );
        }
        lemma_hi_normalize_keeps(pb - SYSTEM_BAND_SKIP, range_start);
    }
}

/// First probe of an upward walk over `[range_start, range_end)`: the
/// range's start rounded up to a region boundary, settled.
pub fn lo_search_start(range_start: u64, range_end: u64) -> (r: SearchStep)
    ensures
        r matches SearchStep::Probe(p) ==> range_start <= p && p < range_end && p as int
            % DETOUR_REGION_SIZE as int == 0 && !spec_in_system_band(p as int),
        r == (if range_start > u64::MAX - DETOUR_REGION_SIZE {
            SearchStep::Fail
        } else {
            spec_lo_normalize(spec_round_up(range_start as int), range_end as int)
        }),
{
    if range_start > u64::MAX - DETOUR_REGION_SIZE {
        return SearchStep::Fail;
    }
    let pb = detour_alloc_round_up_to_region(range_start);
    match lo_normalize(pb, range_end) {
        SearchStep::Probe(p) => {
            proof {
                lemma_lo_normalize_keeps(pb as int, range_end as int);
            }
            SearchStep::Probe(p)
        },
        SearchStep::Fail => SearchStep::Fail,
    }
}

/// What to do with a probed address once the memory there is known: try to
/// allocate a region at it, or move the walk on.
pub enum QueryStep {
    TryAlloc,
    Next(SearchStep),
}

/// Decide a downward walk's reaction to what a query at `pb` reported:
/// allocate in a free range large enough, otherwise resume below the
/// reported allocation.
pub fn hi_on_query(pb: u64, range_start: u64, info: &MemoryBasicInfo) -> (r: QueryStep)
    requires
        info.allocation_base <= pb,
    ensures
        r is TryAlloc <==> (info.state == MEM_TYPE_FREE && info.region_size
            >= DETOUR_REGION_SIZE),
        r matches QueryStep::Next(s) ==> (s matches SearchStep::Probe(p) ==> p < pb && range_start
            < p && p as int % DETOUR_REGION_SIZE as int == 0 && !spec_in_system_band(p as int)),
        r == (if info.state == MEM_TYPE_FREE && info.region_size >= DETOUR_REGION_SIZE {
            QueryStep::TryAlloc
        } else if info.allocation_base < DETOUR_REGION_SIZE {
            QueryStep::Next(SearchStep::Fail)
        } else {
            QueryStep::Next(
                spec_hi_normalize(
                    spec_round_down(info.allocation_base - DETOUR_REGION_SIZE),
                    range_start as int,
                ),
            )
        }),
{
    if info.state == MEM_TYPE_FREE && info.region_size >= DETOUR_REGION_SIZE {
        QueryStep::TryAlloc
    } else {
        if info.allocation_base < DETOUR_REGION_SIZE {
            QueryStep::Next(SearchStep::Fail)
        } else {
            let pb2 = detour_alloc_round_down_to_region(info.allocation_base - DETOUR_REGION_SIZE);
            proof {
                lemma_hi_normalize_keeps(pb2 as int, range_start as int);
            }
            QueryStep::Next(hi_normalize(pb2, range_start))
        }
    }
}

/// Resume a downward walk one region below `pb` after an allocation there
/// failed.
pub fn hi_after_alloc_fail(pb: u64, range_start: u64) -> (r: SearchStep)
    requires
        pb as int % DETOUR_REGION_SIZE as int == 0,
    ensures
        r matches SearchStep::Probe(p) ==> p < pb && range_start < p && p as int
            % DETOUR_REGION_SIZE as int == 0 && !spec_in_system_band(p as int),
        r == (if pb < DETOUR_REGION_SIZE {
            SearchStep::Fail
        } else {
            spec_hi_normalize(pb - DETOUR_REGION_SIZE, range_start as int)
        }),
{
    if pb < DETOUR_REGION_SIZE {
        SearchStep::Fail
    } else {
        proof {
            vstd::arithmetic::div_mod::lemma_mod_multiples_vanish(
                -1,
                pb as int,
                DETOUR_REGION_SIZE as int,
            );
            lemma_hi_normalize_keeps(pb as int - DETOUR_REGION_SIZE as int, range_start as int);
        }
        hi_normalize(pb - DETOUR_REGION_SIZE, range_start)
    }
}

/// Decide an upward walk's reaction to what a query at `pb` reported:
/// allocate in a free range large enough, otherwise resume past the
/// reported range.
pub fn lo_on_query(pb: u64, range_end: u64, info: &MemoryBasicInfo) -> (r: QueryStep)
    requires
        info.base_address == pb,
        info.region_size >= 1,
    ensures
        r is TryAlloc <==> (info.state == MEM_TYPE_FREE && info.region_size
            >= DETOUR_REGION_SIZE),
        r matches QueryStep::Next(s) ==> (s matches SearchStep::Probe(p) ==> p > pb && p
            < range_end && p as int % DETOUR_REGION_SIZE as int == 0 && !spec_in_system_band(
            p as int)),
        r == (if info.state == MEM_TYPE_FREE && info.region_size >= DETOUR_REGION_SIZE {
            QueryStep::TryAlloc
        } else if info.base_address + info.region_size > u64::MAX {
            QueryStep::Next(SearchStep::Fail)
        } else if info.base_address + info.region_size > u64::MAX - DETOUR_REGION_SIZE {
            QueryStep::Next(SearchStep::Fail)
        } else {
            QueryStep::Next(
                spec_lo_normalize(
                    spec_round_up(info.base_address + info.region_size),
                    range_end as int,
                ),
            )
        }),
{
    if info.state == MEM_TYPE_FREE && info.region_size >= DETOUR_REGION_SIZE {
        QueryStep::TryAlloc
    } else {
        if info.region_size > u64::MAX - info.base_address {
            return QueryStep::Next(SearchStep::Fail);
        }
        let nb = info.base_address + info.region_size;
        if nb > u64::MAX - DETOUR_REGION_SIZE {
            return QueryStep::Next(SearchStep::Fail);
        }
        let pb2 = detour_alloc_round_up_to_region(nb);
        proof {
            lemma_lo_normalize_keeps(pb2 as int, range_end as int);
        }
        QueryStep::Next(lo_normalize(pb2, range_end))
    }
}

/// Resume an upward walk one region above `pb` after an allocation there
/// failed.
pub fn lo_after_alloc_fail(pb: u64, range_end: u64) -> (r: SearchStep)
    requires
        pb as int % DETOUR_REGION_SIZE as int == 0,
    ensures
        r matches SearchStep::Probe(p) ==> p > pb && p < range_end && p as int
            % DETOUR_REGION_SIZE as int == 0 && !spec_in_system_band(p as int),
        r == (if pb > u64::MAX - DETOUR_REGION_SIZE {
            SearchStep::Fail
        } else {
            spec_lo_normalize(pb + DETOUR_REGION_SIZE, range_end as int)
        }),
{
    if pb > u64::MAX - DETOUR_REGION_SIZE {
        SearchStep::Fail
    } else {
        proof {
            vstd::arithmetic::div_mod::lemma_mod_multiples_vanish(
                1,
                pb as int,
                DETOUR_REGION_SIZE as int,
            );
            lemma_lo_normalize_keeps(pb as int + DETOUR_REGION_SIZE as int, range_end as int);
        }
        lo_normalize(pb + DETOUR_REGION_SIZE, range_end)
    }
}

/// A fresh executable region stands at `pb` in `post`: the range was free
/// in `pre`, is now mapped, zeroed and writable, and nothing else moved.
pub open spec fn fresh_region_at(pre: Memory, post: Memory, pb: u64) -> bool {
    &&& post.dynamic_code_blocked == pre.dynamic_code_blocked
    &&& forall|x: int| pb <= x < pb + DETOUR_REGION_SIZE ==> !pre.addr_in(x)
    &&& forall|x: int|
        #[trigger] post.addr_in(x) == (pre.addr_in(x) || pb <= x < pb + DETOUR_REGION_SIZE)
    &&& forall|x: int|
        pre.addr_in(x) ==> #[trigger] post.byte_at(x) == pre.byte_at(x) && post.writable_at(x)
            == pre.writable_at(x)
    &&& forall|x: int|
        pb <= x < pb + DETOUR_REGION_SIZE ==> #[trigger] post.byte_at(x) == 0 && post.writable_at(
            x,
        )
    &&& exists|j: int|
        0 <= j < post.segs@.len() && (#[trigger] post.segs@[j]).base == pb
            && post.segs@[j].bytes@.len() == DETOUR_REGION_SIZE
    &&& forall|j: int|
        0 <= j < pre.segs@.len() ==> exists|j2: int|
            0 <= j2 < post.segs@.len() && (#[trigger] post.segs@[j2]).base == (
            #[trigger] pre.segs@[j]).base && post.segs@[j2].bytes@.len()
                == pre.segs@[j].bytes@.len()
}

/// Inside a freshly placed region, every byte is zero and writable.
pub proof fn lemma_fresh_slot_byte(pre: Memory, post: Memory, pb: u64, x: int)
    requires
        fresh_region_at(pre, post, pb),
        pb <= x < pb + DETOUR_REGION_SIZE,
    ensures
        post.addr_in(x),
        post.byte_at(x) == 0,
        post.writable_at(x),
{
}

/// A freshly placed region never unmaps anything: every range mapped before
/// stays mapped.
pub proof fn lemma_fresh_keeps_range(pre: Memory, post: Memory, pb: u64)
    requires
        pre.wf(),
        fresh_region_at(pre, post, pb),
    ensures
        forall|x: int, n: int| #[trigger] pre.range_in(x, n) ==> post.range_in(x, n),
{
    assert forall|x: int, n: int| #[trigger] pre.range_in(x, n) implies post.range_in(x, n) by {
        let i = choose|i: int|
            0 <= i < pre.segs@.len() && (#[trigger] pre.segs@[i]).contains_range(x, n);
        let j2 = choose|j2: int|
            0 <= j2 < post.segs@.len() && (#[trigger] post.segs@[j2]).base == pre.segs@[i].base
                && post.segs@[j2].bytes@.len() == pre.segs@[i].bytes@.len();
        assert(post.segs@[j2].contains_range(x, n));
    }
}

/// Undoing an insertion restores the segment list: if `mid` is `pre` with
/// one segment of base `pb` inserted, no segment of `pre` has base `pb`,
/// and `post` is `mid` with the segment based at `pb` removed, then `post`
/// has exactly the segments of `pre`.
proof fn lemma_insert_then_remove(pre: Seq<Segment>, mid: Seq<Segment>, post: Seq<Segment>, pb: u64)
    requires
        exists|p: int| 0 <= p <= pre.len() && mid == pre.insert(p, mid[p]) && (#[trigger] mid[p]).base == pb,
        forall|t: int| 0 <= t < pre.len() ==> (#[trigger] pre[t]).base != pb,
        exists|j: int| 0 <= j < mid.len() && (#[trigger] mid[j]).base == pb && post == mid.remove(
            j,
        ),
    ensures
        post == pre,
{
    let p = choose|p: int| 0 <= p <= pre.len() && mid == pre.insert(p, mid[p]) && (#[trigger] mid[p]).base == pb;
    let j = choose|j: int|
        0 <= j < mid.len() && (#[trigger] mid[j]).base == pb && post == mid.remove(j);
    pre.insert_ensures(p, mid[p]);
    if j < p {
        assert(mid[j] == pre[j]);
        assert(false);
    } else if j > p {
        assert(mid[j] == pre[j - 1]);
        assert(false);
    }
    assert(post =~= pre);
}

/// Downward search for a free, reachable region base in
/// `(range_start, range_end)`: walk region-aligned candidates from the top
/// down, allocate the first free stretch large enough, and give up — with
/// nothing allocated — when the dynamic-code policy blocks executable
/// allocations.
#[verifier::rlimit(100)]
#[verifier::spinoff_prover]
pub fn detour_alloc_region_from_hi(mem: &mut Memory, range_start: u64, range_end: u64) -> (r:
    Option<u64>)
    requires
        old(mem).wf(),
    ensures
        final(mem).wf(),
        final(mem).dynamic_code_blocked == old(mem).dynamic_code_blocked,
        r is None ==> final(mem).segs@ == old(mem).segs@,
        r == spec_from_hi(*old(mem), range_start as int, range_end as int),
        r matches Some(pb) ==> {
            &&& !old(mem).dynamic_code_blocked
            &&& range_start < pb
            &&& pb + DETOUR_REGION_SIZE <= range_end
            &&& pb as int % DETOUR_REGION_SIZE as int == 0
            &&& !spec_in_system_band(pb as int)
            &&& fresh_region_at(*old(mem), *final(mem), pb)
        },
{
    let ghost m0: Memory = *mem;
    let mut step = hi_search_start(range_start, range_end);
    loop
        invariant
            mem.wf(),
            m0 == *mem,
            m0 == *old(mem),
            step matches SearchStep::Probe(p) ==> range_start < p && p + DETOUR_REGION_SIZE
                <= range_end && p as int % DETOUR_REGION_SIZE as int == 0
                && !spec_in_system_band(p as int),
            spec_from_hi(m0, range_start as int, range_end as int) == spec_hi_walk(
                m0,
                step,
                range_start as int,
            ),
        decreases hi_step_measure(step),
    {
        let pb = match step {
            SearchStep::Fail => {
                return None;
            },
            SearchStep::Probe(p) => p,
        };
        let info = vquery(mem, pb);
        proof {
            if m0.addr_in(pb as int) {
                assert(m0.segs@[m0.idx_of(pb as int)].contains(pb as int));
            }
            m0.lemma_seg_at(pb as int);
            // The query reports exactly what the walk's mirror reads off
            // the memory.
            assert((info.state == MEM_TYPE_FREE && info.region_size >= DETOUR_REGION_SIZE)
                == spec_try_here(m0, pb as int));
            assert(info.allocation_base == spec_alloc_base(m0, pb as int));
        }
        match hi_on_query(pb, range_start, &info) {
            QueryStep::Next(s) => {
                proof {
                    assert(hi_step_measure(s) < hi_step_measure(step));
                    assert(spec_hi_walk(m0, step, range_start as int) == spec_hi_walk(
                        m0,
                        s,
                        range_start as int,
                    ));
                }
                step = s;
            },
            QueryStep::TryAlloc => {
                proof {
                    m0.lemma_free_gap(pb as int);
                }
                match valloc(mem, pb, DETOUR_REGION_BYTES, MEM_TYPE_COMMIT | MEM_TYPE_RESERVE) {
                    Some(_) => {
                        if mem.dynamic_code_blocked {
                            let ghost mid: Memory = *mem;
                            let freed = vfree(mem, pb);
                            proof {
                                assert forall|t: int|
                                    0 <= t < m0.segs@.len() implies (
                                #[trigger] m0.segs@[t]).base != pb by {
                                    if m0.segs@[t].base == pb {
                                        assert(m0.segs@[t].contains(pb as int));
                                    }
                                }
                                lemma_insert_then_remove(m0.segs@, mid.segs@, mem.segs@, pb);
                                assert(spec_hi_walk(m0, step, range_start as int) == None::<u64>);
                            }
                            return None;
                        }
                        proof {
                            assert(mem.dynamic_code_blocked == m0.dynamic_code_blocked);
                            assert(forall|x: int|
                                pb <= x < pb + DETOUR_REGION_SIZE ==> !m0.addr_in(x));
                            assert(forall|x: int| #[trigger]
                                mem.addr_in(x) == (m0.addr_in(x) || pb <= x < pb
                                    + DETOUR_REGION_SIZE));
                            assert(forall|x: int|
                                m0.addr_in(x) ==> #[trigger] mem.byte_at(x) == m0.byte_at(x)
                                    && mem.writable_at(x) == m0.writable_at(x));
                            assert(forall|x: int|
                                pb <= x < pb + DETOUR_REGION_SIZE ==> #[trigger] mem.byte_at(x)
                                    == 0 && mem.writable_at(x));
                            assert(exists|j: int|
                                0 <= j < mem.segs@.len() && (#[trigger] mem.segs@[j]).base == pb
                                    && mem.segs@[j].bytes@.len() == DETOUR_REGION_SIZE);
                            assert(forall|j: int|
                                0 <= j < m0.segs@.len() ==> exists|j2: int|
                                    0 <= j2 < mem.segs@.len() && (#[trigger] mem.segs@[j2]).base
                                        == (#[trigger] m0.segs@[j]).base
                                        && mem.segs@[j2].bytes@.len()
                                        == m0.segs@[j].bytes@.len());
                            assert(fresh_region_at(m0, *mem, pb));
                            assert(spec_hi_walk(m0, step, range_start as int) == Some(pb));
                        }
                        return Some(pb);
                    },
                    None => {
                        proof {
                            assert(false);
                        }
                        step = hi_after_alloc_fail(pb, range_start);
                    },
                }
            },
        }
    }
}

/// Upward search for a free, reachable region base in
/// `[range_start, range_end)`, the mirror image of the downward walk.
#[verifier::rlimit(100)]
#[verifier::spinoff_prover]
pub fn detour_alloc_region_from_lo(mem: &mut Memory, range_start: u64, range_end: u64) -> (r:
    Option<u64>)
    requires
        old(mem).wf(),
    ensures
        final(mem).wf(),
        final(mem).dynamic_code_blocked == old(mem).dynamic_code_blocked,
        r is None ==> final(mem).segs@ == old(mem).segs@,
        r == spec_from_lo(*old(mem), range_start as int, range_end as int),
        r matches Some(pb) ==> {
            &&& !old(mem).dynamic_code_blocked
            &&& range_start <= pb
            &&& pb < range_end
            &&& pb as int % DETOUR_REGION_SIZE as int == 0
            &&& !spec_in_system_band(pb as int)
            &&& fresh_region_at(*old(mem), *final(mem), pb)
        },
{
    let ghost m0: Memory = *mem;
    let mut step = lo_search_start(range_start, range_end);
    loop
        invariant
            mem.wf(),
            m0 == *mem,
            m0 == *old(mem),
            step matches SearchStep::Probe(p) ==> range_start <= p && p < range_end && p as int
                % DETOUR_REGION_SIZE as int == 0 && !spec_in_system_band(p as int),
            spec_from_lo(m0, range_start as int, range_end as int) == spec_lo_walk(
                m0,
                step,
                range_end as int,
            ),
        decreases lo_step_measure(step, range_end as int),
    {
        let pb = match step {
            SearchStep::Fail => {
                return None;
            },
            SearchStep::Probe(p) => p,
        };
        let info = vquery(mem, pb);
        proof {
            if m0.addr_in(pb as int) {
                assert(m0.segs@[m0.idx_of(pb as int)].contains(pb as int));
            }
            m0.lemma_seg_at(pb as int);
            // The query reports exactly what the walk's mirror reads off
            // the memory.
            assert((info.state == MEM_TYPE_FREE && info.region_size >= DETOUR_REGION_SIZE)
                == spec_try_here(m0, pb as int));
            assert(info.base_address + info.region_size == spec_query_end(m0, pb as int));
        }
        match lo_on_query(pb, range_end, &info) {
            QueryStep::Next(s) => {
                proof {
                    assert(lo_step_measure(s, range_end as int) < lo_step_measure(
                        step,
                        range_end as int,
                    ));
                    assert(spec_lo_walk(m0, step, range_end as int) == spec_lo_walk(
                        m0,
                        s,
                        range_end as int,
                    ));
                }
                step = s;
            },
            QueryStep::TryAlloc => {
                proof {
                    m0.lemma_free_gap(pb as int);
                }
                match valloc(mem, pb, DETOUR_REGION_BYTES, MEM_TYPE_COMMIT | MEM_TYPE_RESERVE) {
                    Some(_) => {
                        if mem.dynamic_code_blocked {
                            let ghost mid: Memory = *mem;
                            let freed = vfree(mem, pb);
                            proof {
                                assert forall|t: int|
                                    0 <= t < m0.segs@.len() implies (
                                #[trigger] m0.segs@[t]).base != pb by {
                                    if m0.segs@[t].base == pb {
                                        assert(m0.segs@[t].contains(pb as int));
                                    }
                                }
                                lemma_insert_then_remove(m0.segs@, mid.segs@, mem.segs@, pb);
                                assert(spec_lo_walk(m0, step, range_end as int) == None::<u64>);
                            }
                            return None;
                        }
                        proof {
                            assert(mem.dynamic_code_blocked == m0.dynamic_code_blocked);
                            assert(forall|x: int|
                                pb <= x < pb + DETOUR_REGION_SIZE ==> !m0.addr_in(x));
                            assert(forall|x: int| #[trigger]
                                mem.addr_in(x) == (m0.addr_in(x) || pb <= x < pb
                                    + DETOUR_REGION_SIZE));
                            assert(forall|x: int|
                                m0.addr_in(x) ==> #[trigger] mem.byte_at(x) == m0.byte_at(x)
                                    && mem.writable_at(x) == m0.writable_at(x));
                            assert(forall|x: int|
                                pb <= x < pb + DETOUR_REGION_SIZE ==> #[trigger] mem.byte_at(x)
                                    == 0 && mem.writable_at(x));
                            assert(exists|j: int|
                                0 <= j < mem.segs@.len() && (#[trigger] mem.segs@[j]).base == pb
                                    && mem.segs@[j].bytes@.len() == DETOUR_REGION_SIZE);
                            assert(forall|j: int|
                                0 <= j < m0.segs@.len() ==> exists|j2: int|
                                    0 <= j2 < mem.segs@.len() && (#[trigger] mem.segs@[j2]).base
                                        == (#[trigger] m0.segs@[j]).base
                                        && mem.segs@[j2].bytes@.len()
                                        == m0.segs@[j].bytes@.len());
                            assert(fresh_region_at(m0, *mem, pb));
                            assert(spec_lo_walk(m0, step, range_end as int) == Some(pb));
                        }
                        return Some(pb);
                    },
                    None => {
                        proof {
                            assert(pb == 0);
                        }
                        step = lo_after_alloc_fail(pb, range_end);
                        proof {
                            assert(spec_lo_walk(m0, SearchStep::Probe(0u64), range_end as int)
                                == spec_lo_walk(m0, step, range_end as int));
                        }
                    },
                }
            },
        }
    }
}

/// Radius of the near-placement windows tried around the target first.
pub const NEAR_SEARCH_RADIUS: u64 = 0x4000_0000;

/// Highest target for which the window one radius above it still fits in
/// the address space.
pub const NEAR_ABOVE_LIMIT: u64 = 0xffff_ffff_4000_0000;

/// Where [`detour_alloc_trampoline_allocate_new`] may place a region base:
/// in one of the candidate windows derived from the target and the
/// reachable range `[range_lo, range_hi]`.
pub open spec fn spec_region_placement(pb: int, target: int, range_lo: int, range_hi: int) -> bool {
    ||| (range_lo < pb && pb + DETOUR_REGION_SIZE <= target - NEAR_SEARCH_RADIUS)
    ||| (target + NEAR_SEARCH_RADIUS <= pb && pb < range_hi)
    ||| (target - NEAR_SEARCH_RADIUS <= pb && pb < target)
    ||| (target < pb && pb + DETOUR_REGION_SIZE <= target + NEAR_SEARCH_RADIUS)
    ||| (range_lo < pb && pb + DETOUR_REGION_SIZE <= target)
    ||| (target <= pb && pb < range_hi)
}

/// Two memory values with the same segments and policy flag agree on every
/// observation, so a fresh region relative to one is fresh relative to the
/// other.
proof fn lemma_fresh_region_bridge(a: Memory, b: Memory, post: Memory, pb: u64)
    requires
        a.wf(),
        a.segs@ == b.segs@,
        a.dynamic_code_blocked == b.dynamic_code_blocked,
        fresh_region_at(b, post, pb),
    ensures
        fresh_region_at(a, post, pb),
{
    assert forall|x: int| a.addr_in(x) == b.addr_in(x) by {
        if a.addr_in(x) {
            assert(b.segs@[a.idx_of(x)].contains(x));
        }
        if b.addr_in(x) {
            assert(a.segs@[b.idx_of(x)].contains(x));
        }
    }
    assert forall|x: int| a.addr_in(x) implies #[trigger] a.byte_at(x) == b.byte_at(x)
        && a.writable_at(x) == b.writable_at(x) by {
        assert(a.segs@[a.idx_of(x)].contains(x));
        assert(a.segs@[b.idx_of(x)].contains(x));
        a.lemma_unique_seg(x, a.idx_of(x), b.idx_of(x));
    }
    assert forall|x: int| #[trigger] post.addr_in(x) == (a.addr_in(x) || pb <= x < pb
        + DETOUR_REGION_SIZE) by {}
    assert forall|x: int| a.addr_in(x) implies #[trigger] post.byte_at(x) == a.byte_at(x)
        && post.writable_at(x) == a.writable_at(x) by {
        assert(b.addr_in(x));
    }
}

/// Place a new region for targets near `target`, trying candidate windows
/// in order: a radius below or lower, a radius above or higher, the near
/// bands on either side, then anything below, then anything above. The
/// region lands within `[range_lo, range_hi]` or within a radius of the
/// target; nothing is allocated when every window is exhausted or the
/// dynamic-code policy blocks executable allocations.
pub fn detour_alloc_trampoline_allocate_new(
    mem: &mut Memory,
    target: u64,
    range_lo: u64,
    range_hi: u64,
) -> (r: Option<u64>)
    requires
        old(mem).wf(),
    ensures
        final(mem).wf(),
        final(mem).dynamic_code_blocked == old(mem).dynamic_code_blocked,
        r is None ==> final(mem).segs@ == old(mem).segs@,
        r == spec_allocate_new(*old(mem), target as int, range_lo as int, range_hi as int),
        r matches Some(pb) ==> {
            &&& !old(mem).dynamic_code_blocked
            &&& pb as int % DETOUR_REGION_SIZE as int == 0
            &&& !spec_in_system_band(pb as int)
            &&& spec_region_placement(pb as int, target as int, range_lo as int, range_hi as int)
            &&& fresh_region_at(*old(mem), *final(mem), pb)
        },
{
    let ghost m0: Memory = *mem;
    if target > NEAR_SEARCH_RADIUS {
        match detour_alloc_region_from_hi(mem, range_lo, target - NEAR_SEARCH_RADIUS) {
            Some(pb) => {
                return Some(pb);
            },
            None => {},
        }
    }
    if target < NEAR_ABOVE_LIMIT {
        let ghost mp: Memory = *mem;
        match detour_alloc_region_from_lo(mem, target + NEAR_SEARCH_RADIUS, range_hi) {
            Some(pb) => {
                proof {
                    lemma_fresh_region_bridge(m0, mp, *mem, pb);
                }
                return Some(pb);
            },
            None => {},
        }
    }
    if target > NEAR_SEARCH_RADIUS {
        let ghost mp: Memory = *mem;
        match detour_alloc_region_from_lo(mem, target - NEAR_SEARCH_RADIUS, target) {
            Some(pb) => {
                proof {
                    lemma_fresh_region_bridge(m0, mp, *mem, pb);
                }
                return Some(pb);
            },
            None => {},
        }
    }
    if target < NEAR_ABOVE_LIMIT {
        let ghost mp: Memory = *mem;
        match detour_alloc_region_from_hi(mem, target, target + NEAR_SEARCH_RADIUS) {
            Some(pb) => {
                proof {
                    lemma_fresh_region_bridge(m0, mp, *mem, pb);
                }
                return Some(pb);
            },
            None => {},
        }
    }
    let ghost mp1: Memory = *mem;
    match detour_alloc_region_from_hi(mem, range_lo, target) {
        Some(pb) => {
            proof {
                lemma_fresh_region_bridge(m0, mp1, *mem, pb);
            }
            return Some(pb);
        },
        None => {},
    }
    let ghost mp2: Memory = *mem;
    match detour_alloc_region_from_lo(mem, target, range_hi) {
        Some(pb) => {
            proof {
                lemma_fresh_region_bridge(m0, mp2, *mem, pb);
            }
            Some(pb)
        },
        None => None,
    }
}

/// A settled upward probe keeps region alignment.
proof fn lemma_lo_normalize_keeps(pb: int, range_end: int)
    requires
        pb % DETOUR_REGION_SIZE as int == 0,
        0 <= pb <= u64::MAX,
    ensures
        spec_lo_normalize(pb, range_end) matches SearchStep::Probe(p) ==> p >= pb && p as int
            % DETOUR_REGION_SIZE as int == 0,
    decreases (if range_end >= pb {
        range_end - pb
    } else {
        0
    }),
{
    if pb < range_end && spec_in_system_band(pb) && pb + SYSTEM_BAND_SKIP <= u64::MAX {
        assert((pb + SYSTEM_BAND_SKIP) % DETOUR_REGION_SIZE as int == 0) by {
            vstd::arithmetic::div_mod::lemma_mod_multiples_vanish(
                0x800,
                pb,
                DETOUR_REGION_SIZE as int,
            );
        }
        lemma_lo_normalize_keeps(pb + SYSTEM_BAND_SKIP, range_end);
    }
}

/// One trampoline slot: which region it lies in, which slot of that region
/// it is, and the slot's address.
#[derive(Clone, Copy, Debug, PartialEq, Eq, Structural)]
pub struct Block {
    pub region_index: usize,
    pub slot_index: usize,
    pub addr: u64,
}

/// One executable region's bookkeeping: its base address, an occupancy
/// flag per slot, and a hint naming one known-free slot.
pub struct RegionData {
    pub base: u64,
    pub free: Option<usize>,
    pub state: Vec<bool>,
}

impl RegionData {
    pub open spec fn wf(self) -> bool {
        &&& self.state@.len() == BLOCK_COUNT
        &&& self.base as int % DETOUR_REGION_SIZE as int == 0
        &&& self.base + DETOUR_REGION_SIZE <= u64::MAX as int + 1
        &&& (self.free matches Some(j) ==> j < BLOCK_COUNT && !self.state@[j as int])
    }

    /// The address of slot `j` of this region.
    pub open spec fn slot_addr(self, j: int) -> int {
        self.base + j * TRAMPOLINE_SIZE
    }

    /// The address of the hinted free slot, if one is known.
    pub fn get_free_addr(&self) -> (r: Option<u64>)
        requires
            self.wf(),
        ensures
            match r {
                Some(a) => self.free matches Some(j) && a == self.slot_addr(j as int),
                None => self.free is None,
            },
    {
        match self.free {
            None => None,
            Some(j) => Some(self.base + (j as u64) * TRAMPOLINE_SIZE),
        }
    }

    /// The first free slot of the region, if any.
    pub fn find_free_index(&self) -> (r: Option<usize>)
        requires
            self.wf(),
        ensures
            match r {
                Some(j) => j < BLOCK_COUNT && !self.state@[j as int] && forall|t: int|
                    0 <= t < j ==> self.state@[t],
                None => forall|t: int| 0 <= t < BLOCK_COUNT ==> self.state@[t],
            },
    {
        let n = self.state.len();
        let mut j: usize = 0;
        while j < n
            invariant
                n == self.state@.len(),
                n == BLOCK_COUNT,
                j <= n,
                forall|t: int| 0 <= t < j ==> self.state@[t],
            decreases n - j,
        {
            if !self.state[j] {
                return Some(j);
            }
            j = j + 1;
        }
        None
    }

    /// Take a free slot: prefer the hint, fall back to a scan, mark the
    /// chosen slot occupied and recompute the hint.
    pub fn next_free_block(&mut self) -> (r: Option<usize>)
        requires
            old(self).wf(),
        ensures
            final(self).wf(),
            final(self).base == old(self).base,
            r is Some <==> exists|t: int| 0 <= t < BLOCK_COUNT && !old(self).state@[t],
            r is None ==> final(self).state@ == old(self).state@,
            r matches Some(j) ==> j < BLOCK_COUNT && !old(self).state@[j as int]
                && final(self).state@ == old(self).state@.update(j as int, true),
            old(self).free matches Some(h) ==> r == Some(h),
            r is Some ==> match final(self).free {
                Some(h) => h < BLOCK_COUNT && !final(self).state@[h as int] && forall|t: int|
                    0 <= t < h ==> final(self).state@[t],
                None => forall|t: int| 0 <= t < BLOCK_COUNT ==> final(self).state@[t],
            },
    {
        let j = match self.free {
            Some(j) => {
                self.free = None;
                j
            },
            None => {
                match self.find_free_index() {
                    None => {
                        return None;
                    },
                    Some(j) => j,
                }
            },
        };
        self.state.set(j, true);
        let h = self.find_free_index();
        self.free = h;
        proof {
            assert(self.state@ == old(self).state@.update(j as int, true));
        }
        Some(j)
    }

    /// Return slot `j` to the region and remember it as the free hint.
    pub fn free_block_at(&mut self, j: usize)
        requires
            old(self).wf(),
            j < BLOCK_COUNT,
        ensures
            final(self).wf(),
            final(self).base == old(self).base,
            final(self).state@ == old(self).state@.update(j as int, false),
            final(self).free == Some(j),
    {
        self.state.set(j, false);
        self.free = Some(j);
    }
}

/// A region with base `base` is mapped in `mem` as one whole segment.
pub open spec fn region_mapped(mem: Memory, base: u64) -> bool {
    exists|j: int|
        0 <= j < mem.segs@.len() && (#[trigger] mem.segs@[j]).base == base
            && mem.segs@[j].bytes@.len() == DETOUR_REGION_SIZE
}

/// A settled downward probe never rises.
proof fn lemma_spec_hi_normalize_le(pb: int, range_start: int)
    requires
        0 <= pb,
    ensures
        spec_hi_normalize(pb, range_start) matches SearchStep::Probe(p) ==> p <= pb,
    decreases pb,
{
    if spec_in_system_band(pb) {
        lemma_spec_hi_normalize_le(pb - SYSTEM_BAND_SKIP, range_start);
    }
}

/// A settled upward probe never falls, and stays inside the range.
proof fn lemma_spec_lo_normalize_ge(pb: int, range_end: int)
    requires
        0 <= pb <= u64::MAX,
    ensures
        spec_lo_normalize(pb, range_end) matches SearchStep::Probe(p) ==> pb <= p < range_end,
    decreases (if range_end >= pb {
        range_end - pb
    } else {
        0
    }),
{
    if pb < range_end && spec_in_system_band(pb) && pb + SYSTEM_BAND_SKIP <= u64::MAX {
        lemma_spec_lo_normalize_ge(pb + SYSTEM_BAND_SKIP, range_end);
    }
}

/// A probe worth allocating at: the address heads a free stretch at least
/// one region long.
pub open spec fn spec_try_here_of(segs: Seq<Segment>, pb: int) -> bool {
    &&& seg_at_from(segs, pb) is None
    &&& free_gap_of(segs, pb) >= DETOUR_REGION_SIZE
}

/// The same, read off a memory value.
pub open spec fn spec_try_here(mem: Memory, pb: int) -> bool {
    spec_try_here_of(mem.segs@, pb)
}

/// The allocation base a query at `pb` reports: the mapping segment's base,
/// or `pb` itself in free space.
pub open spec fn spec_alloc_base_of(segs: Seq<Segment>, pb: int) -> int {
    match seg_at_from(segs, pb) {
        Some(s) => s.base as int,
        None => pb,
    }
}

/// The same, read off a memory value.
pub open spec fn spec_alloc_base(mem: Memory, pb: int) -> int {
    spec_alloc_base_of(mem.segs@, pb)
}

/// One past the range a query at `pb` reports: the mapping segment's end,
/// or the end of the free gap.
pub open spec fn spec_query_end_of(segs: Seq<Segment>, pb: int) -> int {
    match seg_at_from(segs, pb) {
        Some(s) => s.end(),
        None => pb + free_gap_of(segs, pb),
    }
}

/// The same, read off a memory value.
pub open spec fn spec_query_end(mem: Memory, pb: int) -> int {
    spec_query_end_of(mem.segs@, pb)
}

/// The downward walk, step for step, as a function of the segment list and
/// the policy flag alone.
pub open spec fn spec_hi_walk_of(
    segs: Seq<Segment>,
    blocked: bool,
    s: SearchStep,
    range_start: int,
) -> Option<u64>
    decreases hi_step_measure(s),
    via spec_hi_walk_decreases
{
    match s {
        SearchStep::Fail => None,
        SearchStep::Probe(pb) => {
            if spec_try_here_of(segs, pb as int) {
                if pb >= 1 {
                    if blocked {
                        None
                    } else {
                        Some(pb)
                    }
                } else {
                    None
                }
            } else {
                let ab = spec_alloc_base_of(segs, pb as int);
                if ab < DETOUR_REGION_SIZE {
                    None
                } else {
                    spec_hi_walk_of(
                        segs,
                        blocked,
                        spec_hi_normalize(spec_round_down(ab - DETOUR_REGION_SIZE), range_start),
                        range_start,
                    )
                }
            }
        },
    }
}

#[via_fn]
proof fn spec_hi_walk_decreases(segs: Seq<Segment>, blocked: bool, s: SearchStep, range_start: int) {
    match s {
        SearchStep::Fail => {},
        SearchStep::Probe(pb) => {
            if !spec_try_here_of(segs, pb as int) {
                let ab = spec_alloc_base_of(segs, pb as int);
                if ab >= DETOUR_REGION_SIZE {
                    lemma_seg_at_contains(segs, pb as int);
                    assert(ab <= pb);
                    assert(0 <= spec_round_down(ab - DETOUR_REGION_SIZE) < pb);
                    lemma_spec_hi_normalize_le(
                        spec_round_down(ab - DETOUR_REGION_SIZE),
                        range_start,
                    );
                }
            }
        },
    }
}

/// Exactly what [`detour_alloc_region_from_hi`] returns when it stands in
/// walk state `s` over the (unchanging) memory `mem`.
pub open spec fn spec_hi_walk(mem: Memory, s: SearchStep, range_start: int) -> Option<u64> {
    spec_hi_walk_of(mem.segs@, mem.dynamic_code_blocked, s, range_start)
}

/// The upward walk, step for step, as a function of the segment list and
/// the policy flag alone.
pub open spec fn spec_lo_walk_of(
    segs: Seq<Segment>,
    blocked: bool,
    s: SearchStep,
    range_end: int,
) -> Option<u64>
    decreases lo_step_measure(s, range_end),
    via spec_lo_walk_decreases
{
    match s {
        SearchStep::Fail => None,
        SearchStep::Probe(pb) => {
            if pb >= range_end {
                None
            } else if spec_try_here_of(segs, pb as int) {
                if pb >= 1 {
                    if blocked {
                        None
                    } else {
                        Some(pb)
                    }
                } else {
                    spec_lo_walk_of(
                        segs,
                        blocked,
                        spec_lo_normalize(pb + DETOUR_REGION_SIZE as int, range_end),
                        range_end,
                    )
                }
            } else {
                let nb = spec_query_end_of(segs, pb as int);
                if nb > u64::MAX - DETOUR_REGION_SIZE {
                    None
                } else {
                    spec_lo_walk_of(
                        segs,
                        blocked,
                        spec_lo_normalize(spec_round_up(nb), range_end),
                        range_end,
                    )
                }
            }
        },
    }
}

#[via_fn]
proof fn spec_lo_walk_decreases(segs: Seq<Segment>, blocked: bool, s: SearchStep, range_end: int) {
    match s {
        SearchStep::Fail => {},
        SearchStep::Probe(pb) => {
            if pb < range_end {
                if spec_try_here_of(segs, pb as int) {
                    if pb < 1 {
                        lemma_spec_lo_normalize_ge(pb + DETOUR_REGION_SIZE as int, range_end);
                    }
                } else {
                    let nb = spec_query_end_of(segs, pb as int);
                    if nb <= u64::MAX - DETOUR_REGION_SIZE {
                        assert(nb > pb) by {
                            lemma_seg_at_contains(segs, pb as int);
                            lemma_next_base_above(segs, pb as int);
                        }
                        assert(nb <= spec_round_up(nb) < nb + DETOUR_REGION_SIZE);
                        lemma_spec_lo_normalize_ge(spec_round_up(nb), range_end);
                    }
                }
            }
        },
    }
}

/// Exactly what [`detour_alloc_region_from_lo`] returns when it stands in
/// walk state `s` over the (unchanging) memory `mem`.
pub open spec fn spec_lo_walk(mem: Memory, s: SearchStep, range_end: int) -> Option<u64> {
    spec_lo_walk_of(mem.segs@, mem.dynamic_code_blocked, s, range_end)
}

/// The whole downward search over `[range_start, range_end)` as one
/// function of the memory.
pub open spec fn spec_from_hi(mem: Memory, range_start: int, range_end: int) -> Option<u64> {
    if range_end < DETOUR_REGION_SIZE {
        None
    } else {
        spec_hi_walk(
            mem,
            spec_hi_normalize(spec_round_down(range_end - DETOUR_REGION_SIZE), range_start),
            range_start,
        )
    }
}

/// The whole upward search over `[range_start, range_end)` as one function
/// of the memory.
pub open spec fn spec_from_lo(mem: Memory, range_start: int, range_end: int) -> Option<u64> {
    if range_start > u64::MAX - DETOUR_REGION_SIZE {
        None
    } else {
        spec_lo_walk(mem, spec_lo_normalize(spec_round_up(range_start), range_end), range_end)
    }
}

/// Under the dynamic-code policy the downward walk can allocate nothing.
proof fn lemma_hi_walk_blocked(segs: Seq<Segment>, s: SearchStep, range_start: int)
    ensures
        spec_hi_walk_of(segs, true, s, range_start) is None,
    decreases hi_step_measure(s),
{
    match s {
        SearchStep::Fail => {},
        SearchStep::Probe(pb) => {
            if !spec_try_here_of(segs, pb as int) {
                let ab = spec_alloc_base_of(segs, pb as int);
                if ab >= DETOUR_REGION_SIZE {
                    lemma_seg_at_contains(segs, pb as int);
                    lemma_spec_hi_normalize_le(
                        spec_round_down(ab - DETOUR_REGION_SIZE),
                        range_start,
                    );
                    lemma_hi_walk_blocked(
                        segs,
                        spec_hi_normalize(spec_round_down(ab - DETOUR_REGION_SIZE), range_start),
                        range_start,
                    );
                }
            }
        },
    }
}

/// Under the dynamic-code policy the upward walk can allocate nothing.
proof fn lemma_lo_walk_blocked(segs: Seq<Segment>, s: SearchStep, range_end: int)
    ensures
        spec_lo_walk_of(segs, true, s, range_end) is None,
    decreases lo_step_measure(s, range_end),
{
    match s {
        SearchStep::Fail => {},
        SearchStep::Probe(pb) => {
            if pb < range_end {
                if spec_try_here_of(segs, pb as int) {
                    if pb < 1 {
                        lemma_spec_lo_normalize_ge(pb + DETOUR_REGION_SIZE as int, range_end);
                        lemma_lo_walk_blocked(
                            segs,
                            spec_lo_normalize(pb + DETOUR_REGION_SIZE as int, range_end),
                            range_end,
                        );
                    }
                } else {
                    let nb = spec_query_end_of(segs, pb as int);
                    if nb <= u64::MAX - DETOUR_REGION_SIZE {
                        assert(nb > pb) by {
                            lemma_seg_at_contains(segs, pb as int);
                            lemma_next_base_above(segs, pb as int);
                        }
                        assert(nb <= spec_round_up(nb) < nb + DETOUR_REGION_SIZE);
                        lemma_spec_lo_normalize_ge(spec_round_up(nb), range_end);
                        lemma_lo_walk_blocked(
                            segs,
                            spec_lo_normalize(spec_round_up(nb), range_end),
                            range_end,
                        );
                    }
                }
            }
        },
    }
}

/// Under the dynamic-code policy no placement strategy can succeed.
pub proof fn lemma_allocate_new_blocked(mem: Memory, target: int, range_lo: int, range_hi: int)
    requires
        mem.dynamic_code_blocked,
    ensures
        spec_allocate_new(mem, target, range_lo, range_hi) is None,
{
    if target > NEAR_SEARCH_RADIUS {
        lemma_hi_walk_blocked(
            mem.segs@,
            spec_hi_normalize(
                spec_round_down(target - NEAR_SEARCH_RADIUS - DETOUR_REGION_SIZE),
                range_lo,
            ),
            range_lo,
        );
        lemma_lo_walk_blocked(
            mem.segs@,
            spec_lo_normalize(spec_round_up(target - NEAR_SEARCH_RADIUS), target),
            target,
        );
    }
    if target < NEAR_ABOVE_LIMIT {
        lemma_lo_walk_blocked(
            mem.segs@,
            spec_lo_normalize(spec_round_up(target + NEAR_SEARCH_RADIUS), range_hi),
            range_hi,
        );
        lemma_hi_walk_blocked(
            mem.segs@,
            spec_hi_normalize(spec_round_down(target + NEAR_SEARCH_RADIUS - DETOUR_REGION_SIZE), target),
            target,
        );
    }
    lemma_hi_walk_blocked(
        mem.segs@,
        spec_hi_normalize(spec_round_down(target - DETOUR_REGION_SIZE), range_lo),
        range_lo,
    );
    lemma_lo_walk_blocked(
        mem.segs@,
        spec_lo_normalize(spec_round_up(target), range_hi),
        range_hi,
    );
}

/// The placement strategy as one function of the memory: the candidate
/// windows derived from the target and the reachable range
/// `[range_lo, range_hi]`, tried in order, first success wins.
pub open spec fn spec_allocate_new(
    mem: Memory,
    target: int,
    range_lo: int,
    range_hi: int,
) -> Option<u64> {
    let w1 = if target > NEAR_SEARCH_RADIUS {
        spec_from_hi(mem, range_lo, target - NEAR_SEARCH_RADIUS)
    } else {
        None
    };
    let w2 = if target < NEAR_ABOVE_LIMIT {
        spec_from_lo(mem, target + NEAR_SEARCH_RADIUS, range_hi)
    } else {
        None
    };
    let w3 = if target > NEAR_SEARCH_RADIUS {
        spec_from_lo(mem, target - NEAR_SEARCH_RADIUS, target)
    } else {
        None
    };
    let w4 = if target < NEAR_ABOVE_LIMIT {
        spec_from_hi(mem, target, target + NEAR_SEARCH_RADIUS)
    } else {
        None
    };
    if w1 is Some {
        w1
    } else if w2 is Some {
        w2
    } else if w3 is Some {
        w3
    } else if w4 is Some {
        w4
    } else if spec_from_hi(mem, range_lo, target) is Some {
        spec_from_hi(mem, range_lo, target)
    } else {
        spec_from_lo(mem, target, range_hi)
    }
}

/// A slot at `slot` is close enough to code at `t` that five-byte jumps
/// between the two (with small fixed offsets on either side) always fit a
/// signed 32-bit displacement.
pub open spec fn slot_in_reach(t: int, slot: int) -> bool {
    -0x7ffa_0000 <= t - slot <= 0x7ffa_0000
}

/// The slot the fast path of allocation would take: the cursor region's
/// hinted free slot, when there is one and its address lies inside the
/// reachable window of the code at `expect`.
pub open spec fn spec_fast_slot(s: Regions, mem: Memory, expect: u64) -> Option<Block> {
    let bounds = crate::x86::spec_find_jmp_bounds(crate::inst::spec_decode_at(mem, expect, 0xe));
    match s.current {
        None => None,
        Some(c) => if c < s.regions@.len() {
            match s.regions@[c as int].free {
                None => None,
                Some(j) => {
                    let addr = s.regions@[c as int].slot_addr(j as int);
                    if bounds.0 <= addr <= bounds.1 {
                        Some(Block { region_index: c, slot_index: j, addr: addr as u64 })
                    } else {
                        None
                    }
                },
            }
        } else {
            None
        },
    }
}

/// What a successful slot allocation guarantees: the handle names a free
/// slot now marked occupied — in an existing region (memory untouched) or
/// in one freshly placed region — and the slot is in reach of `expect`.
pub open spec fn alloc_block_post(
    pre: Regions,
    post: Regions,
    mem0: Memory,
    mem1: Memory,
    expect: u64,
    b: Block,
) -> bool {
    &&& b.region_index < post.regions@.len()
    &&& b.slot_index < BLOCK_COUNT
    &&& pre.regions@.len() <= post.regions@.len() <= pre.regions@.len() + 1
    &&& forall|i: int|
        0 <= i < pre.regions@.len() && i != b.region_index ==> post.regions@[i] == pre.regions@[i]
    &&& post.regions@[b.region_index as int].wf()
    &&& b.addr == post.regions@[b.region_index as int].slot_addr(b.slot_index as int)
    &&& (b.region_index < pre.regions@.len() ==> {
        &&& post.regions@.len() == pre.regions@.len()
        &&& post.regions@[b.region_index as int].base == pre.regions@[b.region_index as int].base
        &&& !pre.regions@[b.region_index as int].state@[b.slot_index as int]
        &&& post.regions@[b.region_index as int].state@ == pre.regions@[b.region_index as int].state@.update(
            b.slot_index as int,
            true,
        )
        &&& mem1.segs@ == mem0.segs@
    })
    &&& (b.region_index >= pre.regions@.len() ==> {
        &&& post.regions@.len() == pre.regions@.len() + 1
        &&& b.region_index == pre.regions@.len()
        &&& b.slot_index == 0
        &&& !mem0.dynamic_code_blocked
        &&& post.regions@[b.region_index as int].state@ == Seq::new(
            BLOCK_COUNT as nat,
            |t: int| false,
        ).update(0, true)
        &&& fresh_region_at(mem0, mem1, post.regions@[b.region_index as int].base)
    })
    &&& slot_in_reach(expect as int, b.addr as int)
}

/// The region whose base is `base` is mapped as one whole segment of `mem`,
/// so `idx_of` and the protection flips behave per region: facts every user
/// of a region needs.
proof fn lemma_region_seg(mem: Memory, base: u64)
    requires
        mem.wf(),
        region_mapped(mem, base),
    ensures
        mem.addr_in(base as int),
        mem.segs@[mem.idx_of(base as int)].base == base,
        mem.segs@[mem.idx_of(base as int)].bytes@.len() == DETOUR_REGION_SIZE,
        mem.range_in(base as int, DETOUR_REGION_SIZE as int),
        forall|x: int|
            base <= x < base + DETOUR_REGION_SIZE ==> mem.addr_in(x) && #[trigger] mem.idx_of(x)
                == mem.idx_of(base as int),
        forall|x: int|
            mem.addr_in(x) && !(base <= x < base + DETOUR_REGION_SIZE) ==> #[trigger] mem.idx_of(x)
                != mem.idx_of(base as int),
{
    let j = choose|j: int|
        0 <= j < mem.segs@.len() && (#[trigger] mem.segs@[j]).base == base
            && mem.segs@[j].bytes@.len() == DETOUR_REGION_SIZE;
    assert(mem.segs@[j].contains(base as int));
    mem.lemma_unique_seg(base as int, j, mem.idx_of(base as int));
    assert(mem.segs@[j].contains_range(base as int, DETOUR_REGION_SIZE as int));
    assert forall|x: int| base <= x < base + DETOUR_REGION_SIZE implies mem.addr_in(x)
        && #[trigger] mem.idx_of(x) == mem.idx_of(base as int) by {
        assert(mem.segs@[j].contains(x));
        mem.lemma_unique_seg(x, j, mem.idx_of(x));
    }
    assert forall|x: int|
        mem.addr_in(x) && !(base <= x < base + DETOUR_REGION_SIZE) implies #[trigger] mem.idx_of(x)
        != mem.idx_of(base as int) by {
        if mem.idx_of(x) == j {
            assert(mem.segs@[j].contains(x));
        }
    }
}

/// The ordered set of executable regions, with a cursor naming the region
/// allocation tries first.
pub struct Regions {
    pub regions: Vec<RegionData>,
    pub current: Option<usize>,
}

impl Regions {
    /// The bookkeeping alone is sound: every region is well formed and the
    /// cursor names one of them.
    pub open spec fn regions_wf(self) -> bool {
        &&& forall|i: int| 0 <= i < self.regions@.len() ==> (#[trigger] self.regions@[i]).wf()
        &&& (self.current matches Some(c) ==> c < self.regions@.len())
    }

    /// The region list is sound with respect to `mem`: every region is
    /// mapped as one whole segment, and no two share a base.
    pub open spec fn wf_with(self, mem: Memory) -> bool {
        &&& self.regions_wf()
        &&& forall|i: int|
            0 <= i < self.regions@.len() ==> region_mapped(mem, (#[trigger] self.regions@[i]).base)
        &&& forall|i: int, j: int|
            0 <= i < j < self.regions@.len() ==> (#[trigger] self.regions@[i]).base != (
            #[trigger] self.regions@[j]).base
    }

    /// Whether `x` lies inside one of the regions.
    pub open spec fn in_region_range(self, x: int) -> bool {
        exists|i: int|
            0 <= i < self.regions@.len() && (#[trigger] self.regions@[i]).base <= x
                < self.regions@[i].base + DETOUR_REGION_SIZE
    }

    /// An empty region set.
    pub fn new() -> (r: Regions)
        ensures
            r.regions@.len() == 0,
            r.current is None,
    {
        Regions { regions: Vec::new(), current: None }
    }

    /// Region soundness carries over to any memory with the same segment
    /// bases and lengths.
    pub proof fn lemma_wf_with_stable(self, a: Memory, b: Memory)
        requires
            self.wf_with(a),
            b.segs@.len() == a.segs@.len(),
            forall|t: int|
                0 <= t < a.segs@.len() ==> (#[trigger] b.segs@[t]).base == a.segs@[t].base
                    && b.segs@[t].bytes@.len() == a.segs@[t].bytes@.len(),
        ensures
            self.wf_with(b),
    {
        assert forall|i: int| 0 <= i < self.regions@.len() implies region_mapped(
            b,
            (#[trigger] self.regions@[i]).base,
        ) by {
            let base = self.regions@[i].base;
            let j = choose|j: int|
                0 <= j < a.segs@.len() && (#[trigger] a.segs@[j]).base == base
                    && a.segs@[j].bytes@.len() == DETOUR_REGION_SIZE;
            assert(b.segs@[j].base == base && b.segs@[j].bytes@.len() == DETOUR_REGION_SIZE);
        }
    }

    /// A slot handle into a sound region set names a mapped range inside
    /// its region.
    pub proof fn lemma_wf_with_gives_slot(self, mem: Memory, block: Block)
        requires
            mem.wf(),
            self.wf_with(mem),
            block.region_index < self.regions@.len(),
            block.slot_index < BLOCK_COUNT,
            block.addr == self.regions@[block.region_index as int].slot_addr(
                block.slot_index as int,
            ),
        ensures
            mem.range_in(block.addr as int, TRAMPOLINE_SIZE as int),
            block.addr + TRAMPOLINE_SIZE <= self.regions@[block.region_index as int].base
                + DETOUR_REGION_SIZE,
            forall|x: int|
                block.addr <= x < block.addr + TRAMPOLINE_SIZE ==> #[trigger] self.in_region_range(
                    x,
                ) && mem.addr_in(x),
    {
        let ri = block.region_index as int;
        let base = self.regions@[ri].base;
        let j = choose|j: int|
            0 <= j < mem.segs@.len() && (#[trigger] mem.segs@[j]).base == base
                && mem.segs@[j].bytes@.len() == DETOUR_REGION_SIZE;
        assert(mem.segs@[j].contains_range(block.addr as int, TRAMPOLINE_SIZE as int));
        assert forall|x: int|
            block.addr <= x < block.addr + TRAMPOLINE_SIZE implies #[trigger] self.in_region_range(
                x,
            ) && mem.addr_in(x) by {
            assert(self.regions@[ri].base <= x < self.regions@[ri].base + DETOUR_REGION_SIZE);
            assert(mem.segs@[j].contains(x));
        }
    }

    /// Set every region's protection to `flag`, touching nothing else.
    fn protect_all(&self, mem: &mut Memory, flag: u32) -> (r: Result<(), Error>)
        requires
            old(mem).wf(),
            self.wf_with(*old(mem)),
        ensures
            final(mem).wf(),
            self.wf_with(*final(mem)),
            r is Ok,
            final(mem).dynamic_code_blocked == old(mem).dynamic_code_blocked,
            final(mem).segs@.len() == old(mem).segs@.len(),
            forall|t: int|
                0 <= t < old(mem).segs@.len() ==> (#[trigger] final(mem).segs@[t]).base == old(
                    mem,
                ).segs@[t].base && final(mem).segs@[t].bytes == old(mem).segs@[t].bytes,
            forall|x: int| final(mem).addr_in(x) == old(mem).addr_in(x),
            forall|x: int|
                old(mem).addr_in(x) ==> #[trigger] final(mem).byte_at(x) == old(mem).byte_at(x),
            forall|x: int|
                old(mem).addr_in(x) ==> #[trigger] final(mem).writable_at(x) == if self
                    .in_region_range(x) {
                    flag == PAGE_FLAG_EXECUTE_READWRITE
                } else {
                    old(mem).writable_at(x)
                },
    {
        let ghost m0: Memory = *mem;
        let ghost w: bool = flag == PAGE_FLAG_EXECUTE_READWRITE;
        let n = self.regions.len();
        let mut i: usize = 0;
        while i < n
            invariant
                n == self.regions@.len(),
                i <= n,
                mem.wf(),
                m0 == *old(mem),
                m0.wf(),
                self.wf_with(m0),
                w == (flag == PAGE_FLAG_EXECUTE_READWRITE),
                mem.dynamic_code_blocked == m0.dynamic_code_blocked,
                mem.segs@.len() == m0.segs@.len(),
                forall|t: int|
                    0 <= t < m0.segs@.len() ==> (#[trigger] mem.segs@[t]).base == m0.segs@[t].base
                        && mem.segs@[t].bytes == m0.segs@[t].bytes,
                forall|x: int| mem.addr_in(x) == m0.addr_in(x),
                forall|x: int|
                    m0.addr_in(x) ==> #[trigger] mem.byte_at(x) == m0.byte_at(x),
                forall|x: int|
                    m0.addr_in(x) ==> #[trigger] mem.writable_at(x) == if (exists|k: int|
                        0 <= k < i && (#[trigger] self.regions@[k]).base <= x
                            < self.regions@[k].base + DETOUR_REGION_SIZE) {
                        w
                    } else {
                        m0.writable_at(x)
                    },
            decreases n - i,
        {
            let base = self.regions[i].base;
            let ghost mp: Memory = *mem;
            proof {
                assert(region_mapped(m0, base));
                self.lemma_wf_with_stable(m0, *mem);
                assert(region_mapped(*mem, base));
                lemma_region_seg(*mem, base);
            }
            let res = vprotect(mem, base, DETOUR_REGION_BYTES, flag);
            proof {
                lemma_region_seg(mp, base);
                mp.lemma_layout_stable(*mem);
                assert forall|x: int| m0.addr_in(x) implies #[trigger] mem.writable_at(x) == if (
                exists|k: int|
                    0 <= k < i + 1 && (#[trigger] self.regions@[k]).base <= x < self.regions@[k].base
                        + DETOUR_REGION_SIZE) {
                    w
                } else {
                    m0.writable_at(x)
                } by {
                    if base <= x < base + DETOUR_REGION_SIZE {
                        assert(mp.idx_of(x) == mp.idx_of(base as int));
                        assert(self.regions@[i as int].base <= x < self.regions@[i as int].base
                            + DETOUR_REGION_SIZE);
                    } else {
                        assert(mp.idx_of(x) != mp.idx_of(base as int));
                        if exists|k: int|
                            0 <= k < i && (#[trigger] self.regions@[k]).base <= x
                                < self.regions@[k].base + DETOUR_REGION_SIZE {
                            let k = choose|k: int|
                                0 <= k < i && (#[trigger] self.regions@[k]).base <= x
                                    < self.regions@[k].base + DETOUR_REGION_SIZE;
                            assert(0 <= k < i + 1 && self.regions@[k].base <= x
                                < self.regions@[k].base + DETOUR_REGION_SIZE);
                        }
                    }
                }
            }
            i = i + 1;
        }
        proof {
            self.lemma_wf_with_stable(m0, *mem);
            assert forall|x: int| m0.addr_in(x) implies #[trigger] mem.writable_at(x) == if self
                .in_region_range(x) {
                w
            } else {
                m0.writable_at(x)
            } by {}
        }
        Ok(())
    }

    /// Make every region writable, opening a guarded mutation window.
    pub fn unlock(&self, mem: &mut Memory) -> (r: Result<(), Error>)
        requires
            old(mem).wf(),
            self.wf_with(*old(mem)),
        ensures
            final(mem).wf(),
            self.wf_with(*final(mem)),
            r is Ok,
            final(mem).dynamic_code_blocked == old(mem).dynamic_code_blocked,
            final(mem).segs@.len() == old(mem).segs@.len(),
            forall|t: int|
                0 <= t < old(mem).segs@.len() ==> (#[trigger] final(mem).segs@[t]).base == old(
                    mem,
                ).segs@[t].base && final(mem).segs@[t].bytes == old(mem).segs@[t].bytes,
            forall|x: int| final(mem).addr_in(x) == old(mem).addr_in(x),
            forall|x: int|
                old(mem).addr_in(x) ==> #[trigger] final(mem).byte_at(x) == old(mem).byte_at(x),
            forall|x: int|
                old(mem).addr_in(x) ==> #[trigger] final(mem).writable_at(x) == (
                self.in_region_range(x) || old(mem).writable_at(x)),
    {
        self.protect_all(mem, PAGE_FLAG_EXECUTE_READWRITE)
    }

    /// Carve a fresh region out of the address space, placed for targets
    /// near `expect` within the window `bound`, with every slot free and
    /// slot zero hinted.
    pub fn alloc_region(&self, mem: &mut Memory, bound: &JmpBounds, expect: u64) -> (r: Option<
        RegionData,
    >)
        requires
            old(mem).wf(),
        ensures
            final(mem).wf(),
            final(mem).dynamic_code_blocked == old(mem).dynamic_code_blocked,
            r is None ==> final(mem).segs@ == old(mem).segs@,
            r is None <==> spec_allocate_new(
                *old(mem),
                spec_round_down(expect as int),
                bound.lo as int,
                bound.hi as int,
            ) is None,
            r matches Some(rd) ==> {
                &&& Some(rd.base) == spec_allocate_new(
                    *old(mem),
                    spec_round_down(expect as int),
                    bound.lo as int,
                    bound.hi as int,
                )
                &&& rd.wf()
                &&& rd.free == Some(0usize)
                &&& rd.state@ == Seq::new(BLOCK_COUNT as nat, |t: int| false)
                &&& !old(mem).dynamic_code_blocked
                &&& fresh_region_at(*old(mem), *final(mem), rd.base)
                &&& spec_region_placement(
                    rd.base as int,
                    expect as int - (expect as int % DETOUR_REGION_SIZE as int),
                    bound.lo as int,
                    bound.hi as int,
                )
            },
    {
        let target = detour_alloc_round_down_to_region(expect);
        let pb = match detour_alloc_trampoline_allocate_new(mem, target, bound.lo, bound.hi) {
            None => {
                return None;
            },
            Some(pb) => pb,
        };
        let mut state: Vec<bool> = Vec::new();
        let mut k: usize = 0;
        while k < BLOCK_COUNT
            invariant
                k <= BLOCK_COUNT,
                state@ =~= Seq::new(k as nat, |t: int| false),
            decreases BLOCK_COUNT - k,
        {
            state.push(false);
            proof {
                assert(state@ =~= Seq::new((k + 1) as nat, |t: int| false));
            }
            k = k + 1;
        }
        proof {
            assert(state@ =~= Seq::new(BLOCK_COUNT as nat, |t: int| false));
            let j = choose|j: int|
                0 <= j < mem.segs@.len() && (#[trigger] mem.segs@[j]).base == pb
                    && mem.segs@[j].bytes@.len() == DETOUR_REGION_SIZE;
            assert(mem.segs@[j].wf());
        }
        Some(RegionData { base: pb, free: Some(0), state })
    }

    /// Obtain one free trampoline slot reachable from the code at `expect`:
    /// from the cursor region when its hinted slot is in reach, else from a
    /// freshly placed region. `None` maps to an out-of-memory failure.
    pub fn alloc_block(&mut self, mem: &mut Memory, expect: u64) -> (r: Option<Block>)
        requires
            old(mem).wf(),
            old(self).wf_with(*old(mem)),
        ensures
            final(mem).wf(),
            final(self).wf_with(*final(mem)),
            final(mem).dynamic_code_blocked == old(mem).dynamic_code_blocked,
            mem_preserved(*old(mem), *final(mem)),
            r is None ==> final(mem).segs@ == old(mem).segs@ && final(self).regions@ == old(
                self,
            ).regions@ && final(self).current == old(self).current,
            r matches Some(b) ==> alloc_block_post(
                *old(self),
                *final(self),
                *old(mem),
                *final(mem),
                expect,
                b,
            ),
            ({
                let bounds = crate::x86::spec_find_jmp_bounds(
                    crate::inst::spec_decode_at(*old(mem), expect, 0xe),
                );
                let slow = spec_allocate_new(
                    *old(mem),
                    spec_round_down(expect as int),
                    bounds.0,
                    bounds.1,
                );
                &&& (r is None <==> spec_fast_slot(*old(self), *old(mem), expect) is None
                    && slow is None)
                &&& (spec_fast_slot(*old(self), *old(mem), expect) is Some ==> r == spec_fast_slot(
                    *old(self),
                    *old(mem),
                    expect,
                ))
                &&& (spec_fast_slot(*old(self), *old(mem), expect) is None && slow is Some ==> (
                r matches Some(b) ==> b.region_index == old(self).regions@.len()
                    && b.slot_index == 0 && Some(b.addr) == slow) && r is Some)
            }),
    {
        let ghost m0: Memory = *mem;
        let ghost s0: Regions = *self;
        let inst = decode_instruction(mem, expect, 0xe);
        let bound = detour_find_jmp_bounds(&inst);
        proof {
            lemma_bounds_reach(inst);
        }
        let fast: Option<(usize, u64)> = match self.current {
            None => None,
            Some(c) => {
                match self.regions[c].get_free_addr() {
                    None => None,
                    Some(addr) => if bound.lo <= addr && addr <= bound.hi {
                        Some((c, addr))
                    } else {
                        None
                    },
                }
            },
        };
        match fast {
            Some((c, addr)) => {
                let region = &mut self.regions[c];
                let j = match region.next_free_block() {
                    Some(j) => j,
                    None => {
                        proof {
                            assert(false);
                        }
                        0
                    },
                };
                proof {
                    assert forall|i: int|
                        0 <= i < self.regions@.len() implies (#[trigger] self.regions@[i]).wf()
                        && region_mapped(*mem, self.regions@[i].base) by {
                        if i != c {
                            assert(self.regions@[i] == s0.regions@[i]);
                        }
                        assert(self.regions@[i].base == s0.regions@[i].base);
                        assert(region_mapped(m0, s0.regions@[i].base));
                    }
                    assert(self.wf_with(*mem));
                    assert(mem_preserved(m0, *mem));
                }
                Some(Block { region_index: c, slot_index: j, addr })
            },
            None => {
                let rd = match self.alloc_region(mem, &bound, expect) {
                    None => {
                        proof {
                            m0.lemma_same_segs(*mem);
                            assert(mem_preserved(m0, *mem));
                        }
                        return None;
                    },
                    Some(rd) => rd,
                };
                let base = rd.base;
                self.regions.push(rd);
                let index = self.regions.len() - 1;
                self.current = Some(index);
                let region = &mut self.regions[index];
                let j = match region.next_free_block() {
                    Some(j) => j,
                    None => {
                        proof {
                            assert(false);
                        }
                        0
                    },
                };
                proof {
                    assert(j == 0);
                    assert forall|i: int|
                        0 <= i < self.regions@.len() implies (#[trigger] self.regions@[i]).wf()
                        && region_mapped(*mem, self.regions@[i].base) by {
                        if i < s0.regions@.len() {
                            assert(self.regions@[i] == s0.regions@[i]);
                            assert(region_mapped(m0, s0.regions@[i].base));
                            let sj = choose|sj: int|
                                0 <= sj < m0.segs@.len() && (#[trigger] m0.segs@[sj]).base
                                    == s0.regions@[i].base && m0.segs@[sj].bytes@.len()
                                    == DETOUR_REGION_SIZE;
                            assert(exists|j2: int|
                                0 <= j2 < mem.segs@.len() && (#[trigger] mem.segs@[j2]).base
                                    == m0.segs@[sj].base && mem.segs@[j2].bytes@.len()
                                    == m0.segs@[sj].bytes@.len());
                        } else {
                            assert(self.regions@[i].base == base);
                        }
                    }
                    assert forall|i1: int, i2: int|
                        0 <= i1 < i2 < self.regions@.len() implies (
                    #[trigger] self.regions@[i1]).base != (#[trigger] self.regions@[i2]).base by {
                        if i2 == self.regions@.len() - 1 && i1 < i2 {
                            let b1 = s0.regions@[i1].base;
                            assert(region_mapped(m0, b1));
                            let sj = choose|sj: int|
                                0 <= sj < m0.segs@.len() && (#[trigger] m0.segs@[sj]).base == b1
                                    && m0.segs@[sj].bytes@.len() == DETOUR_REGION_SIZE;
                            assert(m0.segs@[sj].contains(b1 as int));
                            assert(m0.addr_in(b1 as int));
                        }
                    }
                    assert(self.wf_with(*mem));
                    assert(fresh_region_at(m0, *mem, base));
                    assert(mem_preserved(m0, *mem));
                }
                Some(Block { region_index: index, slot_index: j, addr: base })
            },
        }
    }

    /// Return `block`'s slot to its region; reports whether the handle
    /// named a slot this set owns.
    pub fn free_block(&mut self, block: &Block) -> (r: bool)
        requires
            old(self).regions_wf(),
        ensures
            final(self).regions_wf(),
            final(self).current == old(self).current,
            r == (block.region_index < old(self).regions@.len() && block.slot_index < BLOCK_COUNT),
            !r ==> final(self).regions@ == old(self).regions@,
            r ==> {
                &&& final(self).regions@.len() == old(self).regions@.len()
                &&& forall|i: int|
                    0 <= i < old(self).regions@.len() && i != block.region_index
                        ==> final(self).regions@[i] == old(self).regions@[i]
                &&& final(self).regions@[block.region_index as int].base
                    == old(self).regions@[block.region_index as int].base
                &&& final(self).regions@[block.region_index as int].state@
                    == old(self).regions@[block.region_index as int].state@.update(
                    block.slot_index as int,
                    false,
                )
                &&& final(self).regions@[block.region_index as int].free == Some(block.slot_index)
            },
    {
        if block.region_index < self.regions.len() && block.slot_index < BLOCK_COUNT {
            let region = &mut self.regions[block.region_index];
            region.free_block_at(block.slot_index);
            true
        } else {
            false
        }
    }

    /// Make every region executable-read only again; on a real machine this
    /// is also where the instruction cache over each region is flushed.
    pub fn lock(&self, mem: &mut Memory) -> (r: Result<(), Error>)
        requires
            old(mem).wf(),
            self.wf_with(*old(mem)),
        ensures
            final(mem).wf(),
            self.wf_with(*final(mem)),
            r is Ok,
            final(mem).dynamic_code_blocked == old(mem).dynamic_code_blocked,
            final(mem).segs@.len() == old(mem).segs@.len(),
            forall|t: int|
                0 <= t < old(mem).segs@.len() ==> (#[trigger] final(mem).segs@[t]).base == old(
                    mem,
                ).segs@[t].base && final(mem).segs@[t].bytes == old(mem).segs@[t].bytes,
            forall|x: int| final(mem).addr_in(x) == old(mem).addr_in(x),
            forall|x: int|
                old(mem).addr_in(x) ==> #[trigger] final(mem).byte_at(x) == old(mem).byte_at(x),
            forall|x: int|
                old(mem).addr_in(x) ==> #[trigger] final(mem).writable_at(x) == (!self
                    .in_region_range(x) && old(mem).writable_at(x)),
    {
        self.protect_all(mem, PAGE_FLAG_EXECUTE_READ)
    }
}

} // verus!
