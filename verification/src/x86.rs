//! The x86 side of the engine: relative-jump synthesis, the address window
//! from which a five-byte jump can reach a target, import-thunk
//! classification through the PE headers of the module holding the code,
//! and thunk skipping.

use vstd::prelude::*;
use vstd::arithmetic::div_mod::{lemma_mod_sub_multiples_vanish, lemma_small_mod};

use crate::inst::{decode_instruction, spec_decode_at, Inst, InstKind};
use crate::memory::Memory;

verus! {

/// Offset of the `e_lfanew` field in a DOS header.
pub const DOS_LFANEW_OFFSET: u64 = 0x3C;

/// The `MZ` magic opening a DOS header.
pub const DOS_SIGNATURE: u16 = 0x5A4D;

/// The `PE\0\0` magic opening the NT headers.
pub const NT_SIGNATURE: u32 = 0x4550;

/// Offset from the NT headers to the import-address-table directory entry:
/// 4 signature bytes, a 20-byte file header, 96 bytes of optional header
/// before the data directory, and 12 eight-byte entries before the IAT one.
pub const IAT_DIRECTORY_OFFSET: u64 = 216;

/// The displacement a five-byte relative jump written at `src` must encode
/// to land on `dst`.
pub open spec fn jmp_disp(src: int, dst: int) -> int {
    dst - (src + 5)
}

/// Whether that displacement fits in a signed 32-bit immediate.
pub open spec fn jmp_reachable(src: int, dst: int) -> bool {
    -0x8000_0000 <= jmp_disp(src, dst) <= 0x7fff_ffff
}

/// The five bytes of `JMP rel32` written at `src` landing on `dst`: opcode
/// `0xE9` followed by the displacement, little endian, two's complement.
pub open spec fn jmp_bytes(src: int, dst: int) -> Seq<u8> {
    let d = jmp_disp(src, dst) % 0x1_0000_0000;
    seq![
        0xe9u8,
        (d % 0x100) as u8,
        ((d / 0x100) % 0x100) as u8,
        ((d / 0x10000) % 0x100) as u8,
        ((d / 0x1000000) % 0x100) as u8,
    ]
}

/// A value in `[-m, m)` reduces modulo `m` by at most one shift.
proof fn lemma_mod_in_range(v: int, m: int)
    requires
        m > 0,
        -m <= v < m,
    ensures
        v % m == if v >= 0 {
            v
        } else {
            v + m
        },
{
    if v >= 0 {
        lemma_small_mod(v as nat, m as nat);
    } else {
        lemma_mod_sub_multiples_vanish(v + m, m);
        lemma_small_mod((v + m) as nat, m as nat);
    }
}

/// Encode the five bytes of a `JMP rel32` at `code` landing on `jmp_val`,
/// or report that the displacement overflows a signed 32-bit immediate.
pub fn detour_try_gen_jmp_immediate(code: u64, jmp_val: u64) -> (r: Option<Vec<u8>>)
    ensures
        r is Some <==> jmp_reachable(code as int, jmp_val as int),
        r matches Some(v) ==> v@ == jmp_bytes(code as int, jmp_val as int),
{
    let d: i128 = jmp_val as i128 - (code as i128 + 5);
    if d < -0x8000_0000i128 || d > 0x7fff_ffffi128 {
        return None;
    }
    let du: u32 = if d >= 0 {
        d as u32
    } else {
        (d + 0x1_0000_0000i128) as u32
    };
    proof {
        lemma_mod_in_range(d as int, 0x1_0000_0000);
    }
    let b1 = (du & 0xff) as u8;
    let b2 = ((du >> 8) & 0xff) as u8;
    let b3 = ((du >> 16) & 0xff) as u8;
    let b4 = ((du >> 24) & 0xff) as u8;
    proof {
        assert((du & 0xff) == du % 0x100 && ((du >> 8) & 0xff) == (du / 0x100) % 0x100 && ((du
            >> 16) & 0xff) == (du / 0x10000) % 0x100 && ((du >> 24) & 0xff) == (du / 0x1000000)
            % 0x100) by (bit_vector);
    }
    let mut v: Vec<u8> = Vec::new();
    v.push(0xe9);
    v.push(b1);
    v.push(b2);
    v.push(b3);
    v.push(b4);
    proof {
        assert(v@ =~= jmp_bytes(code as int, jmp_val as int));
    }
    Some(v)
}

/// Encode the five bytes of a `JMP rel32` at `code` landing on `jmp_val`;
/// the caller has already established that the target is reachable.
pub fn detour_gen_jmp_immediate(code: u64, jmp_val: u64) -> (r: Vec<u8>)
    requires
        jmp_reachable(code as int, jmp_val as int),
    ensures
        r@ == jmp_bytes(code as int, jmp_val as int),
{
    match detour_try_gen_jmp_immediate(code, jmp_val) {
        Some(v) => v,
        None => {
            proof {
                assert(false);
            }
            Vec::new()
        },
    }
}

/// The lowest address a five-byte jump at `addr` could still be placed to
/// reach, clamped away from the bottom of the address space.
pub open spec fn spec_2gb_below(addr: int) -> int {
    if addr > 0x7ff8_0000 {
        addr - 0x7ff8_0000
    } else {
        0x8_0000
    }
}

/// The highest such address, clamped away from the top of the address
/// space.
pub open spec fn spec_2gb_above(addr: int) -> int {
    if addr < 0xffff_ffff_8000_0000 {
        addr + 0x7ff8_0000
    } else {
        0xffff_ffff_fff8_0000
    }
}

/// Lower bound of the window reachable from `addr` by a five-byte jump.
pub fn detour_2gb_below(addr: u64) -> (r: u64)
    ensures
        r == spec_2gb_below(addr as int),
{
    if addr > 0x7ff8_0000 {
        addr - 0x7ff8_0000
    } else {
        0x8_0000
    }
}

/// Upper bound of the window reachable from `addr` by a five-byte jump.
pub fn detour_2gb_above(addr: u64) -> (r: u64)
    ensures
        r == spec_2gb_above(addr as int),
{
    if addr < 0xffff_ffff_8000_0000 {
        addr + 0x7ff8_0000
    } else {
        0xffff_ffff_fff8_0000
    }
}

/// The address window from which a five-byte jump can reach both `inst`
/// and, when `inst` is itself a `JMP rel32`, the jump's destination.
pub struct JmpBounds {
    pub lo: u64,
    pub hi: u64,
}

/// What [`detour_find_jmp_bounds`] computes: the reachable window around
/// the instruction, narrowed so a widened thunk destination stays in reach.
pub open spec fn spec_find_jmp_bounds(inst: Inst) -> (int, int) {
    let lo = spec_2gb_below(inst.ip as int);
    let hi = spec_2gb_above(inst.ip as int);
    if inst.kind == InstKind::JmpRel32 {
        if inst.target < inst.ip {
            (lo, spec_2gb_above(inst.target as int))
        } else {
            (spec_2gb_below(inst.target as int), hi)
        }
    } else {
        (lo, hi)
    }
}

/// Compute the window of addresses from which a five-byte jump reaches
/// `inst`, widened to keep the destination of a `JMP rel32` reachable too.
pub fn detour_find_jmp_bounds(inst: &Inst) -> (r: JmpBounds)
    ensures
        (r.lo as int, r.hi as int) == spec_find_jmp_bounds(*inst),
{
    let mut lo = detour_2gb_below(inst.ip);
    let mut hi = detour_2gb_above(inst.ip);
    if matches!(inst.kind, InstKind::JmpRel32) {
        let new = inst.target as u64;
        if new < inst.ip {
            hi = detour_2gb_above(new);
        } else {
            lo = detour_2gb_below(new);
        }
    }
    JmpBounds { lo, hi }
}

/// The reachable window around an instruction never strays more than the
/// clamped two-gigabyte radius from the instruction itself, widened or not.
pub proof fn lemma_bounds_reach(inst: Inst)
    ensures
        ({
            let (lo, hi) = spec_find_jmp_bounds(inst);
            inst.ip - 0x7ff8_0000 <= lo && hi <= inst.ip + 0x7ff8_0000
        }),
{
}

/// Whether `slot` is an import-address-table entry of the module whose
/// image maps `address`: the module's allocation opens with a DOS header,
/// its NT headers carry the PE magic, and `slot` falls inside the range the
/// IAT data directory declares.
pub open spec fn spec_is_imported(mem: Memory, address: int, slot: int) -> bool {
    if !mem.addr_in(address) {
        false
    } else {
        let base = mem.segs@[mem.idx_of(address)].base as int;
        if mem.u16_at(base) != Some(DOS_SIGNATURE as int) {
            false
        } else {
            match mem.u32_at(base + DOS_LFANEW_OFFSET) {
                None => false,
                Some(lfanew) => {
                    let nt = base + lfanew;
                    if mem.u32_at(nt) != Some(NT_SIGNATURE as int) {
                        false
                    } else {
                        match (mem.u32_at(nt + IAT_DIRECTORY_OFFSET), mem.u32_at(
                            nt + IAT_DIRECTORY_OFFSET + 4,
                        )) {
                            (Some(va), Some(sz)) => {
                                let off = if slot >= base {
                                    slot - base
                                } else {
                                    0
                                };
                                va <= off < va + sz
                            },
                            _ => false,
                        }
                    }
                },
            }
        }
    }
}

/// Decide whether `slot` (the memory operand of an indirect jump at
/// `address`) points into the import address table of the module holding
/// `address`, by walking that module's PE headers.
pub fn detour_is_imported(mem: &Memory, address: u64, slot: u64) -> (r: bool)
    requires
        mem.wf(),
    ensures
        r == spec_is_imported(*mem, address as int, slot as int),
{
    let base = match mem.seg_index(address) {
        None => {
            return false;
        },
        Some(i) => mem.segs[i].base,
    };
    match mem.read_u16(base) {
        Some(magic) if magic == DOS_SIGNATURE => (),
        _ => {
            return false;
        },
    }
    if u64::MAX - base < DOS_LFANEW_OFFSET {
        return false;
    }
    let lfanew = match mem.read_u32(base + DOS_LFANEW_OFFSET) {
        None => {
            return false;
        },
        Some(v) => v,
    };
    if u64::MAX - base < lfanew as u64 {
        return false;
    }
    let nt = base + lfanew as u64;
    match mem.read_u32(nt) {
        Some(sig) if sig == NT_SIGNATURE => (),
        _ => {
            return false;
        },
    }
    if u64::MAX - nt < IAT_DIRECTORY_OFFSET + 4 {
        return false;
    }
    let va = match mem.read_u32(nt + IAT_DIRECTORY_OFFSET) {
        None => {
            return false;
        },
        Some(v) => v,
    };
    let sz = match mem.read_u32(nt + IAT_DIRECTORY_OFFSET + 4) {
        None => {
            return false;
        },
        Some(v) => v,
    };
    let off = if slot >= base {
        slot - base
    } else {
        0
    };
    va as u64 <= off && off < va as u64 + sz as u64
}

/// Resolution of the second hop of a short-jump thunk: the short jump
/// landed on `dest`; an import-table jump there is followed through the
/// table, a long relative jump is followed unless its destination opens the
/// hot-patch pattern (a `JMP [mem32]` whose operand sits `0x1000` past it),
/// and anything else stops at `dest`.
pub open spec fn spec_skip_rel8(mem: Memory, dest: int) -> int {
    let i2 = spec_decode_at(mem, dest as u64, 6);
    if i2.kind == InstKind::JmpRm32 {
        if spec_is_imported(mem, dest, i2.target as int) {
            match mem.u32_at(i2.target as int) {
                Some(p) => p,
                None => dest,
            }
        } else {
            dest
        }
    } else if i2.kind == InstKind::JmpRel32 {
        let d2 = i2.target as int;
        let i3 = spec_decode_at(mem, i2.target as u64, 6);
        if i3.kind == InstKind::JmpRm32 && i3.target == d2 + 0x1000 {
            dest
        } else {
            d2
        }
    } else {
        dest
    }
}

/// The address [`detour_skip_jmp`] resolves `inst` to: through an
/// import-table jump (dereferencing the table slot), or through a short
/// jump followed by at most one more import-table or long-jump hop;
/// anything else is already the real entry.
pub open spec fn spec_skip_jmp(mem: Memory, inst: Inst) -> int {
    if inst.kind == InstKind::JmpRm32 {
        if spec_is_imported(mem, inst.ip as int, inst.target as int) {
            match mem.u32_at(inst.target as int) {
                Some(p) => p,
                None => inst.ip as int,
            }
        } else {
            inst.ip as int
        }
    } else if inst.kind == InstKind::JmpRel8 {
        spec_skip_rel8(mem, inst.target as int)
    } else {
        inst.ip as int
    }
}

/// Resolve `inst` through common thunks — an indirect jump through the
/// module's import table, or a short jump forwarding to an import or to a
/// long jump — so the hook lands on the real function entry rather than a
/// stub. Returns the instruction's own address when no thunk is
/// recognised.
pub fn detour_skip_jmp(mem: &Memory, inst: &Inst) -> (r: u64)
    requires
        mem.wf(),
    ensures
        r == spec_skip_jmp(*mem, *inst),
{
    if matches!(inst.kind, InstKind::JmpRm32) {
        let slot = inst.target as u64;
        if detour_is_imported(mem, inst.ip, slot) {
            return match mem.read_u32(slot) {
                Some(p) => p as u64,
                None => inst.ip,
            };
        }
        return inst.ip;
    }
    if matches!(inst.kind, InstKind::JmpRel8) {
        let dest = inst.target as u64;
        let i2 = decode_instruction(mem, dest, 6);
        if matches!(i2.kind, InstKind::JmpRm32) {
            let slot2 = i2.target as u64;
            if detour_is_imported(mem, dest, slot2) {
                return match mem.read_u32(slot2) {
                    Some(p) => p as u64,
                    None => dest,
                };
            }
            return dest;
        }
        if matches!(i2.kind, InstKind::JmpRel32) {
            let d2 = i2.target as u64;
            let i3 = decode_instruction(mem, d2, 6);
            if matches!(i3.kind, InstKind::JmpRm32) && i3.target as u64 == d2 + 0x1000 {
                return dest;
            }
            return d2;
        }
        return dest;
    }
    inst.ip
}

} // verus!
