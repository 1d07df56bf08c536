//! An explicit model of the process address space.
//!
//! The engine's logic reads code bytes, writes patches, allocates executable
//! regions and flips page protections. All of that state is held here as
//! plain data: a sorted list of disjoint segments, each a byte vector with a
//! base address and a writable flag, plus the observable dynamic-code policy
//! of the operating system. The functions `vquery`, `valloc`, `vfree` and
//! `vprotect` mirror the virtual-memory primitives the engine consumes.

use vstd::assert_seqs_equal;
use vstd::prelude::*;

use crate::error::Error;

verus! {

/// Allocation state reported for a committed range.
pub const MEM_TYPE_COMMIT: u32 = 0x1000;
/// Allocation state reported for an unallocated range.
pub const MEM_TYPE_FREE: u32 = 0x10000;
/// Allocation type flag asking for address space to be reserved.
pub const MEM_TYPE_RESERVE: u32 = 0x2000;

/// Page protection allowing execute and read access only.
pub const PAGE_FLAG_EXECUTE_READ: u32 = 0x20;
/// Page protection allowing execute, read and write access.
pub const PAGE_FLAG_EXECUTE_READWRITE: u32 = 0x40;

/// Operating-system status carried when a primitive is handed an address
/// outside every mapping.
pub const INVALID_ADDRESS_STATUS: usize = 487;

/// The value of the two bytes at the start of `s`, little endian.
pub open spec fn u16_of_le(s: Seq<u8>) -> int {
    s[0] + 0x100 * s[1]
}

/// The value of the four bytes at the start of `s`, little endian.
pub open spec fn u32_of_le(s: Seq<u8>) -> int {
    s[0] + 0x100 * s[1] + 0x10000 * s[2] + 0x1000000 * s[3]
}

/// Everything mapped in `a` is still mapped in `b`, byte for byte and
/// protection for protection.
pub open spec fn mem_preserved(a: Memory, b: Memory) -> bool {
    &&& forall|x: int| a.addr_in(x) ==> b.addr_in(x)
    &&& forall|x: int|
        a.addr_in(x) ==> #[trigger] b.byte_at(x) == a.byte_at(x) && b.writable_at(x)
            == a.writable_at(x)
}

/// The first segment base above `a` in scan order; with the segments
/// sorted, that is the least base above `a`.
pub open spec fn next_base_from(segs: Seq<Segment>, a: int) -> Option<int>
    decreases segs.len(),
{
    if segs.len() == 0 {
        None
    } else if segs[0].base > a {
        Some(segs[0].base as int)
    } else {
        next_base_from(segs.drop_first(), a)
    }
}

/// The first segment in scan order that maps `a`; with the segments sorted
/// and disjoint, the only one.
pub open spec fn seg_at_from(segs: Seq<Segment>, a: int) -> Option<Segment>
    decreases segs.len(),
{
    if segs.len() == 0 {
        None
    } else if segs[0].contains(a) {
        Some(segs[0])
    } else {
        seg_at_from(segs.drop_first(), a)
    }
}

/// Whatever the scan finds maps the address it scanned for.
pub proof fn lemma_seg_at_contains(segs: Seq<Segment>, a: int)
    ensures
        seg_at_from(segs, a) matches Some(s) ==> s.contains(a),
    decreases segs.len(),
{
    if segs.len() > 0 && !segs[0].contains(a) {
        lemma_seg_at_contains(segs.drop_first(), a);
    }
}

/// The size of the free range a query at an unmapped address would report:
/// up to the next mapped base, or to the top of the address space.
pub open spec fn free_gap_of(segs: Seq<Segment>, a: int) -> int {
    match next_base_from(segs, a) {
        Some(b) => b - a,
        None => if a == u64::MAX {
            1
        } else {
            u64::MAX - a
        },
    }
}

/// Whatever `next_base_from` finds lies above the address it scanned from.
pub proof fn lemma_next_base_above(segs: Seq<Segment>, a: int)
    ensures
        next_base_from(segs, a) matches Some(b) ==> b > a,
    decreases segs.len(),
{
    if segs.len() > 0 && !(segs[0].base > a) {
        lemma_next_base_above(segs.drop_first(), a);
    }
}

/// One mapped range of the address space: `bytes` starting at `base`.
pub struct Segment {
    pub base: u64,
    pub bytes: Vec<u8>,
    pub writable: bool,
}

impl Segment {
    /// One past the last address of the segment.
    pub open spec fn end(self) -> int {
        self.base + self.bytes@.len()
    }

    pub open spec fn wf(self) -> bool {
        &&& self.bytes@.len() > 0
        &&& self.end() <= u64::MAX as int + 1
    }

    pub open spec fn contains(self, a: int) -> bool {
        self.base <= a < self.end()
    }

    /// The whole range `[a, a + n)` lies inside the segment.
    pub open spec fn contains_range(self, a: int, n: int) -> bool {
        self.base <= a && a + n <= self.end()
    }
}

/// The modelled address space: disjoint segments in increasing address
/// order, and whether the system's dynamic-code policy is in force.
pub struct Memory {
    pub segs: Vec<Segment>,
    pub dynamic_code_blocked: bool,
}

/// What a query of one address reports, mirroring the fields of a
/// virtual-memory basic-information record that the engine consumes.
pub struct MemoryBasicInfo {
    pub base_address: u64,
    pub allocation_base: u64,
    pub region_size: u64,
    pub state: u32,
}

impl Memory {
    pub open spec fn wf(self) -> bool {
        &&& forall|i: int| 0 <= i < self.segs@.len() ==> (#[trigger] self.segs@[i]).wf()
        &&& forall|i: int, j: int|
            0 <= i < j < self.segs@.len() ==> (#[trigger] self.segs@[i]).end()
                <= (#[trigger] self.segs@[j]).base
    }

    /// Some segment maps address `a`.
    pub open spec fn addr_in(self, a: int) -> bool {
        exists|i: int| 0 <= i < self.segs@.len() && (#[trigger] self.segs@[i]).contains(a)
    }

    /// The index of the segment mapping `a` (unique when well formed).
    pub open spec fn idx_of(self, a: int) -> int {
        choose|i: int| 0 <= i < self.segs@.len() && (#[trigger] self.segs@[i]).contains(a)
    }

    /// The byte stored at address `a` (meaningful when `addr_in(a)`).
    pub open spec fn byte_at(self, a: int) -> u8 {
        let s = self.segs@[self.idx_of(a)];
        s.bytes@[a - s.base]
    }

    /// Whether the page holding `a` is writable (meaningful when `addr_in(a)`).
    pub open spec fn writable_at(self, a: int) -> bool {
        self.segs@[self.idx_of(a)].writable
    }

    /// The whole range `[a, a + n)` is mapped by one segment.
    pub open spec fn range_in(self, a: int, n: int) -> bool {
        exists|i: int| 0 <= i < self.segs@.len() && (#[trigger] self.segs@[i]).contains_range(a, n)
    }

    /// The `n` bytes stored from address `a` on.
    pub open spec fn bytes_at(self, a: int, n: nat) -> Seq<u8> {
        Seq::new(n, |k: int| self.byte_at(a + k))
    }

    /// The little-endian 16-bit value at `a`, when mapped.
    pub open spec fn u16_at(self, a: int) -> Option<int> {
        if self.range_in(a, 2) {
            Some(u16_of_le(self.bytes_at(a, 2)))
        } else {
            None
        }
    }

    /// The little-endian 32-bit value at `a`, when mapped.
    pub open spec fn u32_at(self, a: int) -> Option<int> {
        if self.range_in(a, 4) {
            Some(u32_of_le(self.bytes_at(a, 4)))
        } else {
            None
        }
    }

    /// The size of the free range a query at an unmapped address reports.
    pub open spec fn free_gap(self, a: int) -> int {
        free_gap_of(self.segs@, a)
    }

    /// What `next_base_from` finds really is the least mapped base above
    /// `a`, and nothing below it is mapped when `a` itself is not.
    pub proof fn lemma_next_base(self, a: int)
        requires
            self.wf(),
            !self.addr_in(a),
        ensures
            match next_base_from(self.segs@, a) {
                Some(b) => {
                    &&& a < b <= u64::MAX
                    &&& self.addr_in(b)
                    &&& forall|x: int| a <= x < b ==> !self.addr_in(x)
                },
                None => forall|x: int| a <= x <= u64::MAX ==> !self.addr_in(x),
            },
    {
        assert(self.segs@.skip(0) =~= self.segs@);
        self.lemma_next_base_rec(a, 0);
    }

    /// Induction behind `lemma_next_base`: the scan from index `j` on.
    proof fn lemma_next_base_rec(self, a: int, j: int)
        requires
            self.wf(),
            !self.addr_in(a),
            0 <= j <= self.segs@.len(),
            forall|t: int| 0 <= t < j ==> (#[trigger] self.segs@[t]).base <= a,
        ensures
            match next_base_from(self.segs@.skip(j), a) {
                Some(b) => {
                    &&& a < b <= u64::MAX
                    &&& self.addr_in(b)
                    &&& forall|x: int| a <= x < b ==> !self.addr_in(x)
                },
                None => forall|x: int| a <= x <= u64::MAX ==> !self.addr_in(x),
            },
        decreases self.segs@.len() - j,
    {
        let tail = self.segs@.skip(j);
        if tail.len() == 0 {
            self.lemma_gap_free(a, u64::MAX as int + 1, j);
        } else {
            assert(tail[0] == self.segs@[j]);
            if self.segs@[j].base > a {
                let b = self.segs@[j].base as int;
                assert(self.segs@[j].contains(b));
                assert(self.addr_in(b));
                self.lemma_gap_free(a, b, j);
            } else {
                assert(tail.drop_first() =~= self.segs@.skip(j + 1));
                assert(!self.segs@[j].contains(a));
                self.lemma_next_base_rec(a, j + 1);
            }
        }
    }

    /// When the scan found the first base above `a` at index `j`, that is
    /// what `next_base_from` returns.
    pub proof fn lemma_next_base_found(self, a: int, i: int, j: int)
        requires
            0 <= i <= j < self.segs@.len(),
            forall|t: int| i <= t < j ==> (#[trigger] self.segs@[t]).base <= a,
            self.segs@[j].base > a,
        ensures
            next_base_from(self.segs@.skip(i), a) == Some(self.segs@[j].base as int),
        decreases j - i,
    {
        let tail = self.segs@.skip(i);
        assert(tail[0] == self.segs@[i]);
        if i == j {
        } else {
            assert(tail.drop_first() =~= self.segs@.skip(i + 1));
            self.lemma_next_base_found(a, i + 1, j);
        }
    }

    /// When no base above `a` exists from index `i` on, `next_base_from`
    /// reports none.
    pub proof fn lemma_next_base_missing(self, a: int, i: int)
        requires
            0 <= i <= self.segs@.len(),
            forall|t: int| i <= t < self.segs@.len() ==> (#[trigger] self.segs@[t]).base <= a,
        ensures
            next_base_from(self.segs@.skip(i), a) is None,
        decreases self.segs@.len() - i,
    {
        let tail = self.segs@.skip(i);
        if tail.len() == 0 {
        } else {
            assert(tail[0] == self.segs@[i]);
            assert(tail.drop_first() =~= self.segs@.skip(i + 1));
            self.lemma_next_base_missing(a, i + 1);
        }
    }

    /// Under well-formedness, the scan for the mapping segment agrees with
    /// the quantified views.
    pub proof fn lemma_seg_at(self, a: int)
        requires
            self.wf(),
        ensures
            match seg_at_from(self.segs@, a) {
                Some(s) => self.addr_in(a) && s == self.segs@[self.idx_of(a)],
                None => !self.addr_in(a),
            },
    {
        assert(self.segs@.skip(0) =~= self.segs@);
        self.lemma_seg_at_rec(a, 0);
    }

    /// Induction behind `lemma_seg_at`: the scan from index `j` on.
    proof fn lemma_seg_at_rec(self, a: int, j: int)
        requires
            self.wf(),
            0 <= j <= self.segs@.len(),
            forall|t: int| 0 <= t < j ==> !(#[trigger] self.segs@[t]).contains(a),
        ensures
            match seg_at_from(self.segs@.skip(j), a) {
                Some(s) => self.addr_in(a) && s == self.segs@[self.idx_of(a)],
                None => !self.addr_in(a),
            },
        decreases self.segs@.len() - j,
    {
        let tail = self.segs@.skip(j);
        if tail.len() == 0 {
            if self.addr_in(a) {
                let i = self.idx_of(a);
                assert(self.segs@[i].contains(a));
            }
        } else {
            assert(tail[0] == self.segs@[j]);
            if self.segs@[j].contains(a) {
                assert(self.addr_in(a));
                self.lemma_unique_seg(a, j, self.idx_of(a));
            } else {
                assert(tail.drop_first() =~= self.segs@.skip(j + 1));
                self.lemma_seg_at_rec(a, j + 1);
            }
        }
    }

    /// The free gap is positive wherever it is asked for, well formed or
    /// not: the scan only ever reports bases above the address.
    pub proof fn lemma_free_gap_positive(self, a: int)
        requires
            0 <= a <= u64::MAX,
        ensures
            self.free_gap(a) >= 1,
    {
        lemma_next_base_above(self.segs@, a);
    }

    /// At an unmapped address the free gap is at least one byte, fits the
    /// address space, and covers only unmapped bytes.
    pub proof fn lemma_free_gap(self, a: int)
        requires
            self.wf(),
            0 <= a <= u64::MAX,
            !self.addr_in(a),
        ensures
            1 <= self.free_gap(a),
            a + self.free_gap(a) <= u64::MAX as int + 1,
            forall|x: int| a <= x < a + self.free_gap(a) ==> !self.addr_in(x),
    {
        assert(self.segs@.skip(0) =~= self.segs@);
        self.lemma_next_base(a);
    }

    /// The segments' bases, lengths and protections, without their contents:
    /// what stays fixed under plain byte writes.
    pub open spec fn layout(self) -> Seq<(int, int, bool)> {
        self.segs@.map(|i: int, s: Segment| (s.base as int, s.bytes@.len() as int, s.writable))
    }

    /// Two memory values whose segments have the same bases and lengths
    /// map the same addresses through the same indices.
    pub proof fn lemma_layout_stable(self, other: Memory)
        requires
            self.wf(),
            other.segs@.len() == self.segs@.len(),
            forall|t: int|
                0 <= t < self.segs@.len() ==> (#[trigger] other.segs@[t]).base
                    == self.segs@[t].base && other.segs@[t].bytes@.len()
                    == self.segs@[t].bytes@.len(),
        ensures
            other.wf(),
            forall|x: int| self.addr_in(x) == other.addr_in(x),
            forall|x: int|
                self.addr_in(x) ==> #[trigger] other.idx_of(x) == self.idx_of(x),
            forall|x: int, n: int| #[trigger] self.range_in(x, n) == other.range_in(x, n),
    {
        assert forall|x: int, n: int| #[trigger] self.range_in(x, n) == other.range_in(x, n) by {
            if self.range_in(x, n) {
                let i = choose|i: int|
                    0 <= i < self.segs@.len() && (#[trigger] self.segs@[i]).contains_range(x, n);
                assert(other.segs@[i].contains_range(x, n));
            }
            if other.range_in(x, n) {
                let i = choose|i: int|
                    0 <= i < other.segs@.len() && (#[trigger] other.segs@[i]).contains_range(x, n);
                assert(self.segs@[i].contains_range(x, n));
            }
        }
        assert forall|t: int| 0 <= t < other.segs@.len() implies (#[trigger] other.segs@[t]).end()
            == self.segs@[t].end() by {}
        assert forall|x: int| self.addr_in(x) == other.addr_in(x) by {
            if self.addr_in(x) {
                assert(other.segs@[self.idx_of(x)].contains(x));
            }
            if other.addr_in(x) {
                let t = other.idx_of(x);
                assert(other.segs@[t].contains(x));
                assert(self.segs@[t].contains(x));
            }
        }
        assert forall|x: int| self.addr_in(x) implies #[trigger] other.idx_of(x) == self.idx_of(
            x,
        ) by {
            let t = self.idx_of(x);
            assert(self.segs@[t].contains(x));
            assert(other.segs@[t].contains(x));
            let u = other.idx_of(x);
            assert(other.segs@[u].contains(x));
            assert(self.segs@[u].contains(x));
            self.lemma_unique_seg(x, t, u);
        }
    }

    /// Two memory values with equal segment lists agree on every
    /// observation.
    pub proof fn lemma_same_segs(self, other: Memory)
        requires
            self.wf(),
            other.segs@ == self.segs@,
        ensures
            other.wf(),
            forall|x: int| self.addr_in(x) == other.addr_in(x),
            forall|x: int, n: int| #[trigger] self.range_in(x, n) == other.range_in(x, n),
            forall|x: int|
                self.addr_in(x) ==> #[trigger] other.byte_at(x) == self.byte_at(x)
                    && other.writable_at(x) == self.writable_at(x),
    {
        self.lemma_layout_stable(other);
        assert forall|x: int| self.addr_in(x) implies #[trigger] other.byte_at(x) == self.byte_at(
            x,
        ) && other.writable_at(x) == self.writable_at(x) by {
            assert(other.idx_of(x) == self.idx_of(x));
        }
    }

    /// The decode window at a mapped address is unchanged in any memory
    /// that keeps every mapped byte and every segment's base and length.
    pub proof fn lemma_window_stable(self, other: Memory, t: u64, max: int)
        requires
            self.wf(),
            other.wf(),
            max >= 1,
            self.addr_in(t as int),
            forall|x: int| self.addr_in(x) ==> other.addr_in(x),
            forall|x: int| self.addr_in(x) ==> #[trigger] other.byte_at(x) == self.byte_at(x),
            forall|j: int|
                0 <= j < self.segs@.len() ==> exists|j2: int|
                    0 <= j2 < other.segs@.len() && (#[trigger] other.segs@[j2]).base == (
                    #[trigger] self.segs@[j]).base && other.segs@[j2].bytes@.len()
                        == self.segs@[j].bytes@.len(),
        ensures
            other.addr_in(t as int),
            other.window_at(t as int, max) == self.window_at(t as int, max),
    {
        let ja = self.idx_of(t as int);
        assert(self.segs@[ja].contains(t as int));
        let j2 = choose|j2: int|
            0 <= j2 < other.segs@.len() && (#[trigger] other.segs@[j2]).base
                == self.segs@[ja].base && other.segs@[j2].bytes@.len()
                == self.segs@[ja].bytes@.len();
        assert(other.segs@[j2].contains(t as int));
        other.lemma_unique_seg(t as int, j2, other.idx_of(t as int));
        assert(other.segs@[other.idx_of(t as int)].end() == self.segs@[ja].end());
        let avail = self.segs@[ja].end() - t;
        let n: int = if max <= avail {
            max
        } else {
            avail
        };
        assert(self.window_at(t as int, max) == self.bytes_at(t as int, n as nat));
        assert(other.window_at(t as int, max) == other.bytes_at(t as int, n as nat));
        assert forall|k: int| 0 <= k < n implies #[trigger] other.byte_at(t + k) == self.byte_at(
            t + k,
        ) by {
            assert(self.segs@[ja].contains(t + k));
            assert(self.addr_in(t + k));
        }
        assert_seqs_equal!(
            other.bytes_at(t as int, n as nat) == self.bytes_at(t as int, n as nat),
            k => {
                assert(other.bytes_at(t as int, n as nat).len() == n as nat);
                assert(0 <= k < n);
                assert(self.segs@[ja].contains(t + k));
                assert(self.addr_in(t + k));
                assert(other.byte_at(t + k) == self.byte_at(t + k));
                assert(other.bytes_at(t as int, n as nat)[k] == other.byte_at(t + k));
                assert(self.bytes_at(t as int, n as nat)[k] == self.byte_at(t + k));
            }
        );
    }

    /// A sub-range of a mapped range is mapped.
    pub proof fn lemma_range_narrow(self, a: int, n: int, a2: int, n2: int)
        requires
            self.range_in(a, n),
            a <= a2,
            a2 + n2 <= a + n,
        ensures
            self.range_in(a2, n2),
    {
        let i = choose|i: int|
            0 <= i < self.segs@.len() && (#[trigger] self.segs@[i]).contains_range(a, n);
        assert(self.segs@[i].contains_range(a2, n2));
    }

    /// A mapped byte range reads the same out of any memory that kept every
    /// mapped byte.
    pub proof fn lemma_bytes_at_stable(self, other: Memory, addr: int, n: nat)
        requires
            self.wf(),
            self.range_in(addr, n as int),
            forall|x: int| self.addr_in(x) ==> #[trigger] other.byte_at(x) == self.byte_at(x),
        ensures
            other.bytes_at(addr, n) == self.bytes_at(addr, n),
    {
        let i = choose|i: int|
            0 <= i < self.segs@.len() && (#[trigger] self.segs@[i]).contains_range(
                addr,
                n as int,
            );
        assert forall|k: int| 0 <= k < n implies #[trigger] other.byte_at(addr + k)
            == self.byte_at(addr + k) by {
            assert(self.segs@[i].contains(addr + k));
            assert(self.addr_in(addr + k));
        }
        assert(other.bytes_at(addr, n) =~= self.bytes_at(addr, n));
    }

    /// The same, when only the bytes of that one range are known to be kept.
    pub proof fn lemma_bytes_at_stable_if(self, other: Memory, addr: int, n: nat)
        requires
            self.range_in(addr, n as int),
            forall|x: int| addr <= x < addr + n ==> #[trigger] other.byte_at(x) == self.byte_at(x),
        ensures
            other.bytes_at(addr, n) == self.bytes_at(addr, n),
    {
        assert(other.bytes_at(addr, n) =~= self.bytes_at(addr, n));
    }

    /// Only one segment can map a given address.
    pub proof fn lemma_unique_seg(self, a: int, i: int, j: int)
        requires
            self.wf(),
            0 <= i < self.segs@.len(),
            0 <= j < self.segs@.len(),
            self.segs@[i].contains(a),
            self.segs@[j].contains(a),
        ensures
            i == j,
    {
        if i < j {
            assert(self.segs@[i].end() <= self.segs@[j].base);
        } else if j < i {
            assert(self.segs@[j].end() <= self.segs@[i].base);
        }
    }

    /// A range mapped by segment `i` pins down `idx_of` and `byte_at` for
    /// every address in the range.
    pub proof fn lemma_range_bytes(self, a: int, n: int, i: int)
        requires
            self.wf(),
            0 <= i < self.segs@.len(),
            n >= 0,
            self.segs@[i].contains_range(a, n),
        ensures
            forall|k: int|
                0 <= k < n ==> self.addr_in(a + k) && self.idx_of(a + k) == i && #[trigger] self
                    .byte_at(a + k) == self.segs@[i].bytes@[a + k - self.segs@[i].base],
    {
        assert forall|k: int| 0 <= k < n implies self.addr_in(a + k) && self.idx_of(a + k) == i
            && #[trigger] self.byte_at(a + k) == self.segs@[i].bytes@[a + k
            - self.segs@[i].base] by {
            assert(self.segs@[i].contains(a + k));
            assert(self.addr_in(a + k));
            self.lemma_unique_seg(a + k, i, self.idx_of(a + k));
        }
    }

    /// The bytes from `a` up to `max` in count, cut short at the end of the
    /// segment mapping `a` (meaningful when `addr_in(a)`).
    pub open spec fn window_at(self, a: int, max: int) -> Seq<u8> {
        let s = self.segs@[self.idx_of(a)];
        let avail = s.end() - a;
        self.bytes_at(a, (if max <= avail { max } else { avail }) as nat)
    }

    /// Find the segment mapping `a`, if any.
    pub fn seg_index(&self, a: u64) -> (r: Option<usize>)
        requires
            self.wf(),
        ensures
            match r {
                Some(i) => i < self.segs@.len() && self.segs@[i as int].contains(a as int)
                    && self.idx_of(a as int) == i && self.addr_in(a as int),
                None => !self.addr_in(a as int),
            },
    {
        let n = self.segs.len();
        let mut i: usize = 0;
        while i < n
            invariant
                self.wf(),
                n == self.segs@.len(),
                i <= n,
                forall|j: int| 0 <= j < i ==> !(#[trigger] self.segs@[j]).contains(a as int),
            decreases n - i,
        {
            let s = &self.segs[i];
            if s.base <= a && a - s.base < s.bytes.len() as u64 {
                proof {
                    assert(self.segs@[i as int].contains(a as int));
                    self.lemma_unique_seg(a as int, i as int, self.idx_of(a as int));
                }
                return Some(i);
            }
            i = i + 1;
        }
        None
    }

    /// Read exactly `n` bytes from `a`, or nothing if the range is unmapped.
    pub fn read_bytes(&self, a: u64, n: usize) -> (r: Option<Vec<u8>>)
        requires
            self.wf(),
            n >= 1,
        ensures
            match r {
                Some(v) => self.range_in(a as int, n as int) && v@ == self.bytes_at(
                    a as int,
                    n as nat,
                ),
                None => !self.range_in(a as int, n as int),
            },
    {
        match self.seg_index(a) {
            None => {
                proof {
                    if self.range_in(a as int, n as int) {
                        let i = choose|i: int|
                            0 <= i < self.segs@.len() && (#[trigger] self.segs@[i]).contains_range(
                                a as int,
                                n as int,
                            );
                        assert(self.segs@[i].contains(a as int));
                    }
                }
                None
            },
            Some(i) => {
                let s = &self.segs[i];
                let len = s.bytes.len();
                proof {
                    assert(a - s.base < len);
                }
                let off = (a - s.base) as usize;
                if n <= len - off {
                    let mut v: Vec<u8> = Vec::new();
                    let mut k: usize = 0;
                    while k < n
                        invariant
                            self.wf(),
                            i < self.segs@.len(),
                            s == self.segs@[i as int],
                            s.base <= a,
                            off == a - s.base,
                            off + n <= s.bytes@.len(),
                            off + n <= usize::MAX,
                            k <= n,
                            v@ =~= s.bytes@.subrange(off as int, off + k),
                        decreases n - k,
                    {
                        v.push(s.bytes[off + k]);
                        proof {
                            assert(v@ =~= s.bytes@.subrange(off as int, off + k + 1));
                        }
                        k = k + 1;
                    }
                    proof {
                        assert(self.segs@[i as int].contains_range(a as int, n as int));
                        self.lemma_range_bytes(a as int, n as int, i as int);
                        assert(v@ =~= self.bytes_at(a as int, n as nat));
                    }
                    Some(v)
                } else {
                    proof {
                        if self.range_in(a as int, n as int) {
                            let j = choose|j: int|
                                0 <= j < self.segs@.len() && (
                                #[trigger] self.segs@[j]).contains_range(a as int, n as int);
                            assert(self.segs@[j].contains(a as int));
                            self.lemma_unique_seg(a as int, i as int, j);
                        }
                    }
                    None
                }
            },
        }
    }

    /// Read up to `max` bytes from `a`, cut short at the end of the mapping
    /// segment; nothing if `a` is unmapped.
    pub fn read_window(&self, a: u64, max: usize) -> (r: Option<Vec<u8>>)
        requires
            self.wf(),
        ensures
            match r {
                Some(v) => self.addr_in(a as int) && v@ == self.window_at(a as int, max as int),
                None => !self.addr_in(a as int),
            },
    {
        match self.seg_index(a) {
            None => None,
            Some(i) => {
                let s = &self.segs[i];
                let len = s.bytes.len();
                proof {
                    assert(a - s.base < len);
                }
                let off = (a - s.base) as usize;
                let avail = len - off;
                let n = if max <= avail {
                    max
                } else {
                    avail
                };
                let mut v: Vec<u8> = Vec::new();
                let mut k: usize = 0;
                while k < n
                    invariant
                        self.wf(),
                        i < self.segs@.len(),
                        s == self.segs@[i as int],
                        s.base <= a,
                        off == a - s.base,
                        off + n <= s.bytes@.len(),
                        off + n <= usize::MAX,
                        k <= n,
                        v@ =~= s.bytes@.subrange(off as int, off + k),
                    decreases n - k,
                {
                    v.push(s.bytes[off + k]);
                    proof {
                        assert(v@ =~= s.bytes@.subrange(off as int, off + k + 1));
                    }
                    k = k + 1;
                }
                proof {
                    assert(self.segs@[i as int].contains_range(a as int, n as int));
                    self.lemma_range_bytes(a as int, n as int, i as int);
                    assert(v@ =~= self.window_at(a as int, max as int));
                }
                Some(v)
            },
        }
    }

    /// Write `data` at `a`. Succeeds exactly when the whole range is mapped
    /// by one writable segment; on success only those bytes change.
    pub fn write_bytes(&mut self, a: u64, data: &Vec<u8>) -> (ok: bool)
        requires
            old(self).wf(),
            data@.len() >= 1,
        ensures
            ok == (old(self).range_in(a as int, data@.len() as int) && old(self).writable_at(
                a as int,
            )),
            final(self).wf(),
            final(self).layout() == old(self).layout(),
            final(self).segs@.len() == old(self).segs@.len(),
            forall|t: int|
                0 <= t < old(self).segs@.len() ==> (#[trigger] final(self).segs@[t]).base == old(
                    self,
                ).segs@[t].base && final(self).segs@[t].bytes@.len() == old(
                    self,
                ).segs@[t].bytes@.len() && final(self).segs@[t].writable == old(
                    self,
                ).segs@[t].writable,
            final(self).dynamic_code_blocked == old(self).dynamic_code_blocked,
            forall|x: int| final(self).addr_in(x) == old(self).addr_in(x),
            forall|x: int|
                final(self).addr_in(x) ==> final(self).writable_at(x) == old(self).writable_at(x),
            ok ==> forall|x: int|
                old(self).addr_in(x) ==> #[trigger] final(self).byte_at(x) == if a <= x < a
                    + data@.len() {
                    data@[x - a]
                } else {
                    old(self).byte_at(x)
                },
            !ok ==> forall|x: int|
                old(self).addr_in(x) ==> #[trigger] final(self).byte_at(x) == old(self).byte_at(x),
    {
        let ghost pre = *self;
        let n = data.len();
        let r = self.seg_index(a);
        match r {
            None => {
                proof {
                    if pre.range_in(a as int, n as int) {
                        let j = choose|j: int|
                            0 <= j < pre.segs@.len() && (#[trigger] pre.segs@[j]).contains_range(
                                a as int,
                                n as int,
                            );
                        assert(pre.segs@[j].contains(a as int));
                    }
                    assert(pre.layout() =~= self.layout());
                }
                false
            },
            Some(i) => {
                let len = self.segs[i].bytes.len();
                proof {
                    assert(a - self.segs@[i as int].base < len);
                }
                let off = (a - self.segs[i].base) as usize;
                if n <= len - off && self.segs[i].writable {
                    let seg = &mut self.segs[i];
                    let ghost g0: Segment = *seg;
                    let mut k: usize = 0;
                    while k < n
                        invariant
                            seg.base == g0.base,
                            seg.writable == g0.writable,
                            seg.bytes@.len() == g0.bytes@.len(),
                            off + n <= g0.bytes@.len(),
                            off + n <= usize::MAX,
                            k <= n,
                            n == data@.len(),
                            forall|x: int|
                                0 <= x < seg.bytes@.len() ==> #[trigger] seg.bytes@[x] == if off
                                    <= x < off + k {
                                    data@[x - off]
                                } else {
                                    g0.bytes@[x]
                                },
                        decreases n - k,
                    {
                        let b = data[k];
                        seg.bytes.set(off + k, b);
                        k = k + 1;
                    }
                    proof {
                        self.lemma_write_effect(pre, i as int, a as int, data@);
                    }
                    true
                } else {
                    proof {
                        assert(pre.segs@[i as int].contains(a as int));
                        if pre.range_in(a as int, n as int) {
                            let j = choose|j: int|
                                0 <= j < pre.segs@.len() && (
                                #[trigger] pre.segs@[j]).contains_range(a as int, n as int);
                            assert(pre.segs@[j].contains(a as int));
                            pre.lemma_unique_seg(a as int, i as int, j);
                        }
                        assert(pre.layout() =~= self.layout());
                    }
                    false
                }
            },
        }
    }

    /// Read one byte.
    pub fn read_u8(&self, a: u64) -> (r: Option<u8>)
        requires
            self.wf(),
        ensures
            match r {
                Some(v) => self.addr_in(a as int) && v == self.byte_at(a as int),
                None => !self.addr_in(a as int),
            },
    {
        match self.read_bytes(a, 1) {
            None => None,
            Some(v) => Some(v[0]),
        }
    }

    /// Read a little-endian 16-bit value.
    pub fn read_u16(&self, a: u64) -> (r: Option<u16>)
        requires
            self.wf(),
        ensures
            match r {
                Some(v) => self.range_in(a as int, 2) && v == u16_of_le(self.bytes_at(a as int, 2)),
                None => !self.range_in(a as int, 2),
            },
    {
        match self.read_bytes(a, 2) {
            None => None,
            Some(v) => Some(v[0] as u16 + 0x100 * (v[1] as u16)),
        }
    }

    /// Read a little-endian 32-bit value.
    pub fn read_u32(&self, a: u64) -> (r: Option<u32>)
        requires
            self.wf(),
        ensures
            match r {
                Some(v) => self.range_in(a as int, 4) && v == u32_of_le(self.bytes_at(a as int, 4)),
                None => !self.range_in(a as int, 4),
            },
    {
        match self.read_bytes(a, 4) {
            None => None,
            Some(v) => Some(
                v[0] as u32 + 0x100 * (v[1] as u32) + 0x10000 * (v[2] as u32) + 0x1000000 * (
                v[3] as u32),
            ),
        }
    }

    /// After an in-place write of `data` inside segment `i`, relate the new
    /// byte view to the old one.
    proof fn lemma_write_effect(self, pre: Memory, i: int, a: int, data: Seq<u8>)
        requires
            pre.wf(),
            0 <= i < pre.segs@.len(),
            pre.segs@[i].contains_range(a, data.len() as int),
            self.segs@.len() == pre.segs@.len(),
            self.dynamic_code_blocked == pre.dynamic_code_blocked,
            forall|j: int| 0 <= j < pre.segs@.len() && j != i ==> self.segs@[j] == pre.segs@[j],
            self.segs@[i].base == pre.segs@[i].base,
            self.segs@[i].writable == pre.segs@[i].writable,
            self.segs@[i].bytes@.len() == pre.segs@[i].bytes@.len(),
            forall|x: int|
                0 <= x < self.segs@[i].bytes@.len() ==> #[trigger] self.segs@[i].bytes@[x] == if (a
                    - pre.segs@[i].base) <= x < (a - pre.segs@[i].base) + data.len() {
                    data[x - (a - pre.segs@[i].base)]
                } else {
                    pre.segs@[i].bytes@[x]
                },
        ensures
            self.wf(),
            self.layout() == pre.layout(),
            forall|x: int| self.addr_in(x) == pre.addr_in(x),
            forall|x: int| self.addr_in(x) ==> self.writable_at(x) == pre.writable_at(x),
            forall|x: int|
                pre.addr_in(x) ==> #[trigger] self.byte_at(x) == if a <= x < a + data.len() {
                    data[x - a]
                } else {
                    pre.byte_at(x)
                },
    {
        assert forall|j: int| 0 <= j < self.segs@.len() implies (#[trigger] self.segs@[j]).wf()
            && self.segs@[j].end() == pre.segs@[j].end() && self.segs@[j].base
            == pre.segs@[j].base by {}
        assert(self.wf());
        assert(self.layout() =~= pre.layout());
        assert forall|x: int| self.addr_in(x) == pre.addr_in(x) by {
            if pre.addr_in(x) {
                let j = pre.idx_of(x);
                assert(self.segs@[j].contains(x));
            }
            if self.addr_in(x) {
                let j = self.idx_of(x);
                assert(pre.segs@[j].contains(x));
            }
        }
        assert forall|x: int| pre.addr_in(x) implies #[trigger] self.byte_at(x) == (if a <= x < a
            + data.len() {
            data[x - a]
        } else {
            pre.byte_at(x)
        }) && self.writable_at(x) == pre.writable_at(x) by {
            let j = pre.idx_of(x);
            assert(pre.segs@[j].contains(x));
            assert(self.segs@[j].contains(x));
            pre.lemma_unique_seg(x, j, pre.idx_of(x));
            self.lemma_unique_seg(x, j, self.idx_of(x));
            if a <= x < a + data.len() {
                assert(pre.segs@[i].contains(x));
                pre.lemma_unique_seg(x, i, j);
            } else {
                if j == i {
                    assert(self.segs@[i].bytes@[x - pre.segs@[i].base] == pre.segs@[i].bytes@[x
                        - pre.segs@[i].base]);
                }
            }
        }
    }
}

/// Report the allocation containing `addr`, or the extent of the free range
/// starting there. Mirrors a virtual-memory query.
pub fn vquery(mem: &Memory, addr: u64) -> (r: MemoryBasicInfo)
    requires
        mem.wf(),
    ensures
        mem.addr_in(addr as int) ==> {
            let s = mem.segs@[mem.idx_of(addr as int)];
            &&& r.state == MEM_TYPE_COMMIT
            &&& r.base_address == addr
            &&& r.allocation_base == s.base
            &&& r.region_size == s.end() - addr
        },
        !mem.addr_in(addr as int) ==> {
            &&& r.state == MEM_TYPE_FREE
            &&& r.base_address == addr
            &&& r.allocation_base == addr
            &&& r.region_size == mem.free_gap(addr as int)
            &&& r.region_size >= 1
            &&& addr + r.region_size <= u64::MAX as int + 1
            &&& (forall|x: int| addr <= x < addr + r.region_size ==> !mem.addr_in(x))
            &&& (mem.addr_in(addr + r.region_size) || addr + r.region_size >= u64::MAX)
        },
{
    match mem.seg_index(addr) {
        Some(i) => {
            let s = &mem.segs[i];
            MemoryBasicInfo {
                base_address: addr,
                allocation_base: s.base,
                region_size: s.bytes.len() as u64 - (addr - s.base),
                state: MEM_TYPE_COMMIT,
            }
        },
        None => {
            let n = mem.segs.len();
            let mut j: usize = 0;
            while j < n
                invariant
                    mem.wf(),
                    n == mem.segs@.len(),
                    j <= n,
                    !mem.addr_in(addr as int),
                    forall|t: int| 0 <= t < j ==> (#[trigger] mem.segs@[t]).base <= addr,
                decreases n - j,
            {
                if mem.segs[j].base > addr {
                    let gap = mem.segs[j].base - addr;
                    proof {
                        mem.lemma_gap_free(addr as int, mem.segs@[j as int].base as int, j as int);
                        assert(mem.segs@[j as int].contains(mem.segs@[j as int].base as int));
                        mem.lemma_next_base_found(addr as int, 0, j as int);
                        assert(mem.segs@.skip(0) =~= mem.segs@);
                    }
                    return MemoryBasicInfo {
                        base_address: addr,
                        allocation_base: addr,
                        region_size: gap,
                        state: MEM_TYPE_FREE,
                    };
                }
                j = j + 1;
            }
            proof {
                mem.lemma_gap_free(addr as int, u64::MAX as int + 1, n as int);
                mem.lemma_next_base_missing(addr as int, 0);
                assert(mem.segs@.skip(0) =~= mem.segs@);
            }
            let gap = if addr == u64::MAX {
                1
            } else {
                u64::MAX - addr
            };
            MemoryBasicInfo {
                base_address: addr,
                allocation_base: addr,
                region_size: gap,
                state: MEM_TYPE_FREE,
            }
        },
    }
}

impl Memory {
    /// If every segment below index `j` starts at or before `a`, `a` itself
    /// is unmapped, and every segment from `j` on starts at or after `hi`,
    /// then nothing in `[a, hi)` is mapped.
    proof fn lemma_gap_free(self, a: int, hi: int, j: int)
        requires
            self.wf(),
            !self.addr_in(a),
            0 <= j <= self.segs@.len(),
            forall|t: int| 0 <= t < j ==> (#[trigger] self.segs@[t]).base <= a,
            forall|t: int| j <= t < self.segs@.len() ==> (#[trigger] self.segs@[t]).base >= hi,
        ensures
            forall|x: int| a <= x < hi ==> !self.addr_in(x),
    {
        assert forall|x: int| a <= x < hi implies !self.addr_in(x) by {
            if self.addr_in(x) {
                let t = self.idx_of(x);
                assert(self.segs@[t].contains(x));
                if t < j {
                    assert(self.segs@[t].contains(a));
                    assert(self.addr_in(a));
                } else {
                    assert(self.segs@[t].base >= hi);
                }
            }
        }
    }
}

/// Reserve and commit `size` zeroed, writable bytes exactly at `addr`.
/// Fails when the hint collides with an existing mapping, mirroring an
/// allocation at a fixed hint address.
pub fn valloc(mem: &mut Memory, addr: u64, size: usize, alloc_type: u32) -> (r: Option<u64>)
    requires
        old(mem).wf(),
    ensures
        final(mem).wf(),
        final(mem).dynamic_code_blocked == old(mem).dynamic_code_blocked,
        r == Some(addr) || r == None::<u64>,
        r is Some <==> (addr >= 1 && size >= 1 && addr + size <= u64::MAX as int + 1 && (forall|
            x: int,
        |
            addr <= x < addr + size ==> !old(mem).addr_in(x))),
        r is None ==> *final(mem) == *old(mem),
        r is Some ==> {
            exists|p: int|
                {
                    &&& 0 <= p <= old(mem).segs@.len()
                    &&& final(mem).segs@ == old(mem).segs@.insert(
                        p,
                        final(mem).segs@[p],
                    )
                    &&& (#[trigger] final(mem).segs@[p]).base == addr
                    &&& final(mem).segs@[p].bytes@ == Seq::new(size as nat, |k: int| 0u8)
                    &&& final(mem).segs@[p].writable
                }
        },
        r is Some ==> forall|x: int|
            #[trigger] final(mem).addr_in(x) == (old(mem).addr_in(x) || addr <= x < addr + size),
        r is Some ==> forall|x: int|
            old(mem).addr_in(x) ==> #[trigger] final(mem).byte_at(x) == old(mem).byte_at(x)
                && final(mem).writable_at(x) == old(mem).writable_at(x),
        r is Some ==> forall|x: int|
            addr <= x < addr + size ==> #[trigger] final(mem).byte_at(x) == 0
                && final(mem).writable_at(x),
        r is Some ==> exists|j: int|
            0 <= j < final(mem).segs@.len() && (#[trigger] final(mem).segs@[j]).base == addr
                && final(mem).segs@[j].bytes@.len() == size && final(mem).segs@[j].writable,
        r is Some ==> forall|j: int|
            0 <= j < old(mem).segs@.len() ==> exists|j2: int|
                0 <= j2 < final(mem).segs@.len() && (#[trigger] final(mem).segs@[j2]).base == (
                #[trigger] old(mem).segs@[j]).base && final(mem).segs@[j2].bytes@.len() == old(
                mem,
                ).segs@[j].bytes@.len(),
{
    let ghost m0: Memory = *mem;
    if addr < 1 || size < 1 || u64::MAX - addr < size as u64 - 1 {
        return None;
    }
    // Reject a hint that collides with an existing mapping, and find the
    // insertion point keeping the segment list sorted.
    let n = mem.segs.len();
    let mut p: usize = 0;
    while p < n && mem.segs[p].base <= addr
        invariant
            m0 == *mem,
            mem.wf(),
            n == mem.segs@.len(),
            p <= n,
            forall|t: int| 0 <= t < p ==> (#[trigger] mem.segs@[t]).base <= addr,
            forall|t: int| 0 <= t < p ==> !(#[trigger] mem.segs@[t]).contains(addr as int),
        decreases n - p,
    {
        let s = &mem.segs[p];
        if addr - s.base < s.bytes.len() as u64 {
            proof {
                assert(m0.segs@[p as int].contains(addr as int));
                assert(m0.addr_in(addr as int));
            }
            return None;
        }
        p = p + 1;
    }
    proof {
        assert forall|t: int| p <= t < n implies (#[trigger] mem.segs@[t]).base > addr by {
            if t > p {
                assert(mem.segs@[p as int].end() <= mem.segs@[t].base);
                assert(mem.segs@[p as int].base < mem.segs@[p as int].end());
            }
        }
        assert forall|t: int| p <= t < n implies !(#[trigger] mem.segs@[t]).contains(
            addr as int,
        ) by {}
    }
    if p < n && mem.segs[p].base - addr < size as u64 {
        proof {
            let ghost b = m0.segs@[p as int].base as int;
            assert(m0.segs@[p as int].contains(b));
            assert(m0.addr_in(b));
            assert(addr <= b < addr + size);
        }
        return None;
    }
    proof {
        assert(!mem.addr_in(addr as int)) by {
            if mem.addr_in(addr as int) {
                let t = mem.idx_of(addr as int);
                assert(mem.segs@[t].contains(addr as int));
            }
        }
        mem.lemma_gap_free(addr as int, addr + size, p as int);
        assert(forall|x: int| addr <= x < addr + size ==> !m0.addr_in(x));
    }
    let mut zeros: Vec<u8> = Vec::new();
    let mut k: usize = 0;
    while k < size
        invariant
            k <= size,
            zeros@ =~= Seq::new(k as nat, |t: int| 0u8),
        decreases size - k,
    {
        zeros.push(0u8);
        proof {
            assert(zeros@ =~= Seq::new((k + 1) as nat, |t: int| 0u8));
        }
        k = k + 1;
    }
    let seg = Segment { base: addr, bytes: zeros, writable: true };
    let ghost gseg: Segment = seg;
    let ghost pre = *mem;
    mem.segs.insert(p, seg);
    proof {
        pre.segs@.insert_ensures(p as int, gseg);
        assert(mem.segs@[p as int] == gseg);
        assert(mem.segs@ == pre.segs@.insert(p as int, mem.segs@[p as int]));
        lemma_insert_effect(*mem, pre, p as int, addr as int, size as int);
        assert(gseg.bytes@ =~= Seq::new(size as nat, |k: int| 0u8));
        assert(0 <= p < mem.segs@.len() && mem.segs@[p as int].base == addr && mem.segs@[
        p as int].bytes@.len() == size && mem.segs@[p as int].writable);
    }
    Some(addr)
}

/// After inserting a fresh disjoint segment at sorted position `p`, relate
/// the new views to the old ones.
proof fn lemma_insert_effect(post: Memory, pre: Memory, p: int, addr: int, size: int)
    requires
        pre.wf(),
        0 <= p <= pre.segs@.len(),
        size >= 1,
        addr >= 1,
        addr + size <= u64::MAX as int + 1,
        forall|t: int| 0 <= t < p ==> (#[trigger] pre.segs@[t]).end() <= addr,
        forall|t: int| p <= t < pre.segs@.len() ==> (#[trigger] pre.segs@[t]).base >= addr + size,
        post.segs@ == pre.segs@.insert(p, post.segs@[p]),
        post.segs@[p].base == addr,
        post.segs@[p].bytes@ == Seq::new(size as nat, |k: int| 0u8),
        post.segs@[p].writable,
        post.dynamic_code_blocked == pre.dynamic_code_blocked,
    ensures
        post.wf(),
        forall|x: int| #[trigger] post.addr_in(x) == (pre.addr_in(x) || addr <= x < addr + size),
        forall|x: int|
            pre.addr_in(x) ==> #[trigger] post.byte_at(x) == pre.byte_at(x) && post.writable_at(x)
                == pre.writable_at(x),
        forall|x: int|
            addr <= x < addr + size ==> #[trigger] post.byte_at(x) == 0 && post.writable_at(x),
        forall|j: int|
            0 <= j < pre.segs@.len() ==> exists|j2: int|
                0 <= j2 < post.segs@.len() && (#[trigger] post.segs@[j2]).base == (
                #[trigger] pre.segs@[j]).base && post.segs@[j2].bytes@.len()
                == pre.segs@[j].bytes@.len(),
{
    assert(post.segs@.len() == pre.segs@.len() + 1);
    assert forall|j: int| 0 <= j < pre.segs@.len() implies exists|j2: int|
        0 <= j2 < post.segs@.len() && (#[trigger] post.segs@[j2]).base == (
        #[trigger] pre.segs@[j]).base && post.segs@[j2].bytes@.len()
        == pre.segs@[j].bytes@.len() by {
        let j2: int = if j < p {
            j
        } else {
            j + 1
        };
        assert(post.segs@[j2] == pre.segs@[j]);
    }
    assert(forall|t: int| 0 <= t < p ==> post.segs@[t] == pre.segs@[t]);
    assert(forall|t: int| p < t < post.segs@.len() ==> post.segs@[t] == pre.segs@[t - 1]);
    assert(post.segs@[p].end() == addr + size);
    assert forall|i: int, j: int| 0 <= i < j < post.segs@.len() implies (
    #[trigger] post.segs@[i]).end() <= (#[trigger] post.segs@[j]).base by {
        if i < p && j < p {
        } else if i < p && j == p {
            assert(pre.segs@[i].end() <= addr);
        } else if i == p {
            assert(pre.segs@[j - 1].base >= addr + size);
        } else if i < p && j > p {
            if p < pre.segs@.len() {
                assert(pre.segs@[i].end() <= pre.segs@[j - 1].base);
            } else {
                assert(pre.segs@[i].end() <= pre.segs@[j - 1].base);
            }
        } else {
            assert(pre.segs@[i - 1].end() <= pre.segs@[j - 1].base);
        }
    }
    assert(post.wf());
    assert forall|x: int| #[trigger] post.addr_in(x) == (pre.addr_in(x) || addr <= x < addr
        + size) by {
        if pre.addr_in(x) {
            let t = pre.idx_of(x);
            if t < p {
                assert(post.segs@[t].contains(x));
            } else {
                assert(post.segs@[t + 1].contains(x));
            }
            assert(post.addr_in(x));
        }
        if addr <= x < addr + size {
            assert(post.segs@[p].contains(x));
            assert(post.addr_in(x));
        }
        if post.addr_in(x) {
            let t = post.idx_of(x);
            assert(post.segs@[t].contains(x));
            if t == p {
                assert(addr <= x < addr + size);
            } else if t < p {
                assert(pre.segs@[t].contains(x));
                assert(pre.addr_in(x));
            } else {
                assert(pre.segs@[t - 1].contains(x));
                assert(pre.addr_in(x));
            }
        }
    }
    assert forall|x: int| pre.addr_in(x) implies #[trigger] post.byte_at(x) == pre.byte_at(x)
        && post.writable_at(x) == pre.writable_at(x) by {
        let t = pre.idx_of(x);
        assert(pre.segs@[t].contains(x));
        let t2: int = if t < p {
            t
        } else {
            t + 1
        };
        assert(post.segs@[t2].contains(x));
        post.lemma_unique_seg(x, t2, post.idx_of(x));
    }
    assert forall|x: int| addr <= x < addr + size implies #[trigger] post.byte_at(x) == 0
        && post.writable_at(x) by {
        assert(post.segs@[p].contains(x));
        post.lemma_unique_seg(x, p, post.idx_of(x));
    }
}

/// Release the allocation whose base is exactly `addr`.
pub fn vfree(mem: &mut Memory, addr: u64) -> (r: Result<(), Error>)
    requires
        old(mem).wf(),
    ensures
        final(mem).wf(),
        final(mem).dynamic_code_blocked == old(mem).dynamic_code_blocked,
        r is Ok <==> exists|j: int|
            0 <= j < old(mem).segs@.len() && (#[trigger] old(mem).segs@[j]).base == addr,
        r is Err ==> *final(mem) == *old(mem) && r == Err::<(), Error>(
            Error::ErrorCode(INVALID_ADDRESS_STATUS),
        ),
        r is Ok ==> exists|j: int|
            {
                &&& 0 <= j < old(mem).segs@.len()
                &&& (#[trigger] old(mem).segs@[j]).base == addr
                &&& final(mem).segs@ == old(mem).segs@.remove(j)
            },
        r is Ok ==> forall|x: int|
            #[trigger] final(mem).addr_in(x) == (old(mem).addr_in(x) && !(addr <= x < old(
                mem,
            ).segs@[old(mem).idx_of(addr as int)].end())),
        r is Ok ==> forall|x: int|
            final(mem).addr_in(x) ==> #[trigger] final(mem).byte_at(x) == old(mem).byte_at(x)
                && final(mem).writable_at(x) == old(mem).writable_at(x),
{
    let n = mem.segs.len();
    let mut j: usize = 0;
    while j < n
        invariant
            old(mem) == mem,
            mem.wf(),
            n == mem.segs@.len(),
            j <= n,
            forall|t: int| 0 <= t < j ==> (#[trigger] mem.segs@[t]).base != addr,
        decreases n - j,
    {
        if mem.segs[j].base == addr {
            let ghost pre = *mem;
            mem.segs.remove(j);
            proof {
                lemma_remove_effect(*mem, pre, j as int);
                assert(pre.segs@[j as int].contains(addr as int));
                pre.lemma_unique_seg(addr as int, j as int, pre.idx_of(addr as int));
            }
            return Ok(());
        }
        j = j + 1;
    }
    Err(Error::ErrorCode(INVALID_ADDRESS_STATUS))
}

/// After removing segment `j`, relate the new views to the old ones.
proof fn lemma_remove_effect(post: Memory, pre: Memory, j: int)
    requires
        pre.wf(),
        0 <= j < pre.segs@.len(),
        post.segs@ == pre.segs@.remove(j),
        post.dynamic_code_blocked == pre.dynamic_code_blocked,
    ensures
        post.wf(),
        forall|x: int|
            #[trigger] post.addr_in(x) == (pre.addr_in(x) && !pre.segs@[j].contains(x)),
        forall|x: int|
            post.addr_in(x) ==> #[trigger] post.byte_at(x) == pre.byte_at(x) && post.writable_at(x)
                == pre.writable_at(x),
{
    assert(post.segs@.len() == pre.segs@.len() - 1);
    assert(forall|t: int| 0 <= t < j ==> post.segs@[t] == pre.segs@[t]);
    assert(forall|t: int| j <= t < post.segs@.len() ==> post.segs@[t] == pre.segs@[t + 1]);
    assert forall|a: int, b: int| 0 <= a < b < post.segs@.len() implies (
    #[trigger] post.segs@[a]).end() <= (#[trigger] post.segs@[b]).base by {
        let a2: int = if a < j {
            a
        } else {
            a + 1
        };
        let b2: int = if b < j {
            b
        } else {
            b + 1
        };
        assert(pre.segs@[a2].end() <= pre.segs@[b2].base);
    }
    assert(post.wf());
    assert forall|x: int| #[trigger] post.addr_in(x) == (pre.addr_in(x) && !pre.segs@[j].contains(
        x,
    )) by {
        if post.addr_in(x) {
            let t = post.idx_of(x);
            let t2: int = if t < j {
                t
            } else {
                t + 1
            };
            assert(pre.segs@[t2].contains(x));
            assert(pre.addr_in(x));
            if pre.segs@[j].contains(x) {
                pre.lemma_unique_seg(x, t2, j);
            }
        }
        if pre.addr_in(x) && !pre.segs@[j].contains(x) {
            let t = pre.idx_of(x);
            assert(pre.segs@[t].contains(x));
            let t2: int = if t < j {
                t
            } else {
                t - 1
            };
            assert(post.segs@[t2].contains(x));
            assert(post.addr_in(x));
        }
    }
    assert forall|x: int| post.addr_in(x) implies #[trigger] post.byte_at(x) == pre.byte_at(x)
        && post.writable_at(x) == pre.writable_at(x) by {
        let t = post.idx_of(x);
        assert(post.segs@[t].contains(x));
        let t2: int = if t < j {
            t
        } else {
            t + 1
        };
        assert(pre.segs@[t2].contains(x));
        post.lemma_unique_seg(x, t, post.idx_of(x));
        pre.lemma_unique_seg(x, t2, pre.idx_of(x));
    }
}

/// Change the protection of the mapping that holds `[addr, addr + size)` to
/// `flag`, returning the protection it had before.
pub fn vprotect(mem: &mut Memory, addr: u64, size: usize, flag: u32) -> (r: Result<u32, Error>)
    requires
        old(mem).wf(),
        size >= 1,
    ensures
        final(mem).wf(),
        final(mem).dynamic_code_blocked == old(mem).dynamic_code_blocked,
        r is Ok <==> old(mem).range_in(addr as int, size as int),
        r is Err ==> *final(mem) == *old(mem) && r == Err::<u32, Error>(
            Error::ErrorCode(INVALID_ADDRESS_STATUS),
        ),
        r is Ok ==> {
            &&& r == Ok::<u32, Error>(
                if old(mem).writable_at(addr as int) {
                    PAGE_FLAG_EXECUTE_READWRITE
                } else {
                    PAGE_FLAG_EXECUTE_READ
                },
            )
            &&& final(mem).segs@.len() == old(mem).segs@.len()
            &&& forall|t: int|
                0 <= t < old(mem).segs@.len() ==> (#[trigger] final(mem).segs@[t]).base == old(
                    mem,
                ).segs@[t].base && final(mem).segs@[t].bytes == old(mem).segs@[t].bytes
            &&& forall|x: int| final(mem).addr_in(x) == old(mem).addr_in(x)
            &&& forall|x: int|
                old(mem).addr_in(x) ==> #[trigger] final(mem).byte_at(x) == old(mem).byte_at(x)
            &&& forall|x: int|
                old(mem).addr_in(x) ==> #[trigger] final(mem).writable_at(x) == if old(
                    mem,
                ).idx_of(x) == old(mem).idx_of(addr as int) {
                    flag == PAGE_FLAG_EXECUTE_READWRITE
                } else {
                    old(mem).writable_at(x)
                }
        },
{
    let ghost pre = *mem;
    let r = mem.seg_index(addr);
    match r {
        None => {
            proof {
                if pre.range_in(addr as int, size as int) {
                    let i = choose|i: int|
                        0 <= i < pre.segs@.len() && (#[trigger] pre.segs@[i]).contains_range(
                            addr as int,
                            size as int,
                        );
                    assert(pre.segs@[i].contains(addr as int));
                }
            }
            Err(Error::ErrorCode(INVALID_ADDRESS_STATUS))
        },
        Some(i) => {
            let len = mem.segs[i].bytes.len();
            proof {
                assert(addr - mem.segs@[i as int].base < len);
            }
            let off = (addr - mem.segs[i].base) as usize;
            if size > len - off {
                proof {
                    if pre.range_in(addr as int, size as int) {
                        let t = choose|t: int|
                            0 <= t < pre.segs@.len() && (#[trigger] pre.segs@[t]).contains_range(
                                addr as int,
                                size as int,
                            );
                        assert(pre.segs@[t].contains(addr as int));
                        pre.lemma_unique_seg(addr as int, i as int, t);
                    }
                }
                return Err(Error::ErrorCode(INVALID_ADDRESS_STATUS));
            }
            let old_flag = if mem.segs[i].writable {
                PAGE_FLAG_EXECUTE_READWRITE
            } else {
                PAGE_FLAG_EXECUTE_READ
            };
            let w = flag == PAGE_FLAG_EXECUTE_READWRITE;
            let seg = &mut mem.segs[i];
            seg.writable = w;
            proof {
                assert(pre.segs@[i as int].contains_range(addr as int, size as int));
                lemma_protect_effect(*mem, pre, i as int, w);
            }
            Ok(old_flag)
        },
    }
}

/// A scoped page-protection flip: construction makes the range holding a
/// patch target writable, `restore` puts the previous protection back.
pub struct MemoryProtector {
    pub addr: u64,
    pub size: usize,
    pub old_flag: u32,
}

impl MemoryProtector {
    /// Make `[addr, addr + size)` writable, remembering the protection it
    /// had, or fail without changing anything when the range is unmapped.
    pub fn new(mem: &mut Memory, addr: u64, size: usize) -> (r: Result<MemoryProtector, Error>)
        requires
            old(mem).wf(),
            size >= 1,
        ensures
            final(mem).wf(),
            final(mem).dynamic_code_blocked == old(mem).dynamic_code_blocked,
            r is Ok <==> old(mem).range_in(addr as int, size as int),
            r is Err ==> *final(mem) == *old(mem) && r == Err::<MemoryProtector, Error>(
                Error::ErrorCode(INVALID_ADDRESS_STATUS),
            ),
            r matches Ok(mp) ==> {
                &&& mp.addr == addr
                &&& mp.size == size
                &&& mp.old_flag == (if old(mem).writable_at(addr as int) {
                    PAGE_FLAG_EXECUTE_READWRITE
                } else {
                    PAGE_FLAG_EXECUTE_READ
                })
                &&& final(mem).segs@.len() == old(mem).segs@.len()
                &&& forall|t: int|
                    0 <= t < old(mem).segs@.len() ==> (#[trigger] final(mem).segs@[t]).base == old(
                        mem,
                    ).segs@[t].base && final(mem).segs@[t].bytes == old(mem).segs@[t].bytes
                &&& forall|x: int| final(mem).addr_in(x) == old(mem).addr_in(x)
                &&& forall|x: int|
                    old(mem).addr_in(x) ==> #[trigger] final(mem).byte_at(x) == old(mem).byte_at(x)
                &&& forall|x: int|
                    old(mem).addr_in(x) ==> #[trigger] final(mem).writable_at(x) == if old(
                        mem,
                    ).idx_of(x) == old(mem).idx_of(addr as int) {
                        true
                    } else {
                        old(mem).writable_at(x)
                    }
                &&& final(mem).range_in(addr as int, size as int)
                &&& final(mem).writable_at(addr as int)
            },
    {
        let ghost m0: Memory = *mem;
        let r = vprotect(mem, addr, size, PAGE_FLAG_EXECUTE_READWRITE);
        match r {
            Ok(old_flag) => {
                proof {
                    let i = choose|i: int|
                        0 <= i < m0.segs@.len() && (#[trigger] m0.segs@[i]).contains_range(
                            addr as int,
                            size as int,
                        );
                    assert(m0.segs@[i].contains(addr as int));
                    m0.lemma_unique_seg(addr as int, i, m0.idx_of(addr as int));
                    assert(mem.segs@[i].base == m0.segs@[i].base);
                    assert(mem.segs@[i].bytes == m0.segs@[i].bytes);
                    assert(mem.segs@[i].contains_range(addr as int, size as int));
                }
                Ok(MemoryProtector { addr, size, old_flag })
            },
            Err(e) => Err(e),
        }
    }

    /// Write `data` at the guarded address, or report zero bytes written when
    /// it does not fit in the guarded range.
    pub fn write_override(&self, mem: &mut Memory, data: &Vec<u8>) -> (written: usize)
        requires
            old(mem).wf(),
            data@.len() >= 1,
            old(mem).range_in(self.addr as int, data@.len() as int),
            old(mem).writable_at(self.addr as int),
        ensures
            final(mem).wf(),
            final(mem).dynamic_code_blocked == old(mem).dynamic_code_blocked,
            final(mem).layout() == old(mem).layout(),
            final(mem).segs@.len() == old(mem).segs@.len(),
            forall|t: int|
                0 <= t < old(mem).segs@.len() ==> (#[trigger] final(mem).segs@[t]).base == old(
                    mem,
                ).segs@[t].base && final(mem).segs@[t].bytes@.len() == old(
                    mem,
                ).segs@[t].bytes@.len() && final(mem).segs@[t].writable == old(
                    mem,
                ).segs@[t].writable,
            forall|x: int| final(mem).addr_in(x) == old(mem).addr_in(x),
            forall|x: int|
                final(mem).addr_in(x) ==> final(mem).writable_at(x) == old(mem).writable_at(x),
            written == if data@.len() <= self.size {
                data@.len() as int
            } else {
                0
            },
            written > 0 ==> forall|x: int|
                old(mem).addr_in(x) ==> #[trigger] final(mem).byte_at(x) == if self.addr <= x
                    < self.addr + data@.len() {
                    data@[x - self.addr]
                } else {
                    old(mem).byte_at(x)
                },
            written == 0 ==> *final(mem) == *old(mem),
    {
        if data.len() > self.size {
            return 0;
        }
        let ok = mem.write_bytes(self.addr, data);
        data.len()
    }

    /// Put the remembered protection back.
    pub fn restore(self, mem: &mut Memory) -> (r: Result<u32, Error>)
        requires
            old(mem).wf(),
            self.size >= 1,
        ensures
            final(mem).wf(),
            final(mem).dynamic_code_blocked == old(mem).dynamic_code_blocked,
            r is Ok <==> old(mem).range_in(self.addr as int, self.size as int),
            r is Err ==> *final(mem) == *old(mem),
            r is Ok ==> {
                &&& final(mem).segs@.len() == old(mem).segs@.len()
                &&& forall|t: int|
                    0 <= t < old(mem).segs@.len() ==> (#[trigger] final(mem).segs@[t]).base == old(
                        mem,
                    ).segs@[t].base && final(mem).segs@[t].bytes == old(mem).segs@[t].bytes
                &&& forall|x: int| final(mem).addr_in(x) == old(mem).addr_in(x)
                &&& forall|x: int|
                    old(mem).addr_in(x) ==> #[trigger] final(mem).byte_at(x) == old(mem).byte_at(x)
                &&& forall|x: int|
                    old(mem).addr_in(x) ==> #[trigger] final(mem).writable_at(x) == if old(
                        mem,
                    ).idx_of(x) == old(mem).idx_of(self.addr as int) {
                        self.old_flag == PAGE_FLAG_EXECUTE_READWRITE
                    } else {
                        old(mem).writable_at(x)
                    }
            },
    {
        vprotect(mem, self.addr, self.size, self.old_flag)
    }
}

/// After flipping the writable flag of segment `i`, relate the new views to
/// the old ones.
proof fn lemma_protect_effect(post: Memory, pre: Memory, i: int, w: bool)
    requires
        pre.wf(),
        0 <= i < pre.segs@.len(),
        post.segs@.len() == pre.segs@.len(),
        forall|t: int| 0 <= t < pre.segs@.len() && t != i ==> post.segs@[t] == pre.segs@[t],
        post.segs@[i].base == pre.segs@[i].base,
        post.segs@[i].bytes == pre.segs@[i].bytes,
        post.segs@[i].writable == w,
        post.dynamic_code_blocked == pre.dynamic_code_blocked,
    ensures
        post.wf(),
        forall|x: int| post.addr_in(x) == pre.addr_in(x),
        forall|x: int| pre.addr_in(x) ==> #[trigger] post.byte_at(x) == pre.byte_at(x),
        forall|x: int|
            pre.addr_in(x) ==> #[trigger] post.writable_at(x) == if pre.idx_of(x) == i {
                w
            } else {
                pre.writable_at(x)
            },
{
    assert forall|t: int| 0 <= t < post.segs@.len() implies (#[trigger] post.segs@[t]).wf()
        && post.segs@[t].end() == pre.segs@[t].end() && post.segs@[t].base
        == pre.segs@[t].base by {}
    assert(post.wf());
    assert forall|x: int| post.addr_in(x) == pre.addr_in(x) by {
        if pre.addr_in(x) {
            assert(post.segs@[pre.idx_of(x)].contains(x));
        }
        if post.addr_in(x) {
            assert(pre.segs@[post.idx_of(x)].contains(x));
        }
    }
    assert forall|x: int| pre.addr_in(x) implies #[trigger] post.byte_at(x) == pre.byte_at(x)
        && post.writable_at(x) == (if pre.idx_of(x) == i {
        w
    } else {
        pre.writable_at(x)
    }) by {
        let t = pre.idx_of(x);
        assert(pre.segs@[t].contains(x));
        assert(post.segs@[t].contains(x));
        post.lemma_unique_seg(x, t, post.idx_of(x));
    }
}

} // verus!
