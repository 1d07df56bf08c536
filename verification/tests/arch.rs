// Unit checks for the x86 helpers, the decoder facade, the virtual-memory
// model and the region allocator.

use detours_rs::ext::Pointer;
use detours_rs::inst::{decode_instruction, find_prologue_fetch, Inst, InstKind};
use detours_rs::mem::{
    detour_alloc_region_from_lo, detour_alloc_round_down_to_region,
    detour_alloc_round_up_to_region, Regions,
};
use detours_rs::memory::{
    valloc, vfree, vprotect, vquery, Memory, Segment, MEM_TYPE_COMMIT, MEM_TYPE_FREE,
    MEM_TYPE_RESERVE, PAGE_FLAG_EXECUTE_READ, PAGE_FLAG_EXECUTE_READWRITE,
};
use detours_rs::x86::{
    detour_2gb_above, detour_2gb_below, detour_find_jmp_bounds, detour_gen_jmp_immediate,
    detour_skip_jmp, detour_try_gen_jmp_immediate,
};

fn seg(base: u64, bytes: Vec<u8>) -> Segment {
    Segment { base, bytes, writable: true }
}

#[test]
fn jmp_encoding_forward() {
    let v = detour_gen_jmp_immediate(0x1000, 0x2000);
    assert_eq!(v, vec![0xE9, 0xFB, 0x0F, 0x00, 0x00]);
}

#[test]
fn jmp_encoding_backward() {
    let v = detour_gen_jmp_immediate(0x2000, 0x1000);
    assert_eq!(v, vec![0xE9, 0xFB, 0xEF, 0xFF, 0xFF]);
}

#[test]
fn jmp_encoding_detects_overflow() {
    assert!(detour_try_gen_jmp_immediate(0x1000, 0x8000_1005).is_none());
    assert!(detour_try_gen_jmp_immediate(0x1000, 0x8000_1004).is_some());
}

#[test]
fn reach_window_clamps() {
    assert_eq!(detour_2gb_below(0x1000), 0x8_0000);
    assert_eq!(detour_2gb_below(0x8000_0000), 0x8_0000);
    assert_eq!(detour_2gb_below(0x9000_0000), 0x1008_0000);
    assert_eq!(detour_2gb_above(0x1000), 0x7FF8_1000);
    assert_eq!(detour_2gb_above(0xFFFF_FFFF_9000_0000), 0xFFFF_FFFF_FFF8_0000);
}

#[test]
fn jmp_bounds_widen_toward_the_thunk_destination() {
    let plain = Inst { ip: 0x9000_0000, len: 5, kind: InstKind::Other, target: 0 };
    let b = detour_find_jmp_bounds(&plain);
    assert_eq!(b.lo, 0x9000_0000 - 0x7FF8_0000);
    assert_eq!(b.hi, 0x9000_0000 + 0x7FF8_0000);

    let widened = Inst { ip: 0x9000_0000, len: 5, kind: InstKind::JmpRel32, target: 0xA000_0000 };
    let b = detour_find_jmp_bounds(&widened);
    assert_eq!(b.lo, 0xA000_0000 - 0x7FF8_0000);
    assert_eq!(b.hi, 0x9000_0000 + 0x7FF8_0000);
}

#[test]
fn decoder_reports_a_relative_jump() {
    let mem = Memory {
        segs: vec![seg(0x1000, vec![0xE9, 0xFB, 0x0F, 0x00, 0x00, 0x90, 0x90, 0x90])],
        dynamic_code_blocked: false,
    };
    let i = decode_instruction(&mem, 0x1000, 14);
    assert_eq!(i.kind, InstKind::JmpRel32);
    assert_eq!(i.len, 5);
    assert_eq!(i.target, 0x2000);
}

#[test]
fn decoder_fails_outside_the_mapping() {
    let mem = Memory { segs: vec![], dynamic_code_blocked: false };
    let i = decode_instruction(&mem, 0x1000, 14);
    assert_eq!(i.kind, InstKind::Invalid);
    assert_eq!(i.len, 0);
}

#[test]
fn prologue_fetch_covers_whole_instructions() {
    let mem = Memory {
        segs: vec![seg(0x1000, vec![0x55, 0x8B, 0xEC, 0x83, 0xEC, 0x10, 0x90, 0xC3])],
        dynamic_code_blocked: false,
    };
    assert_eq!(find_prologue_fetch(&mem, 0x1000), Ok(6));
}

#[test]
fn prologue_fetch_stops_at_a_return() {
    let mem = Memory {
        segs: vec![seg(0x1000, vec![0xC3, 0x90, 0x90, 0x90, 0x90, 0x90])],
        dynamic_code_blocked: false,
    };
    assert!(find_prologue_fetch(&mem, 0x1000).is_err());
}

#[test]
fn short_jump_thunk_is_followed_to_a_long_jump() {
    // EB 06: short jump over six bytes, landing on E9 rel32 to 0x2000.
    let mut bytes = vec![0x90u8; 0x100];
    bytes[0] = 0xEB;
    bytes[1] = 0x06;
    bytes[8..13].copy_from_slice(&[0xE9, 0xF3, 0x0F, 0x00, 0x00]);
    let mem = Memory { segs: vec![seg(0x1000, bytes)], dynamic_code_blocked: false };
    let i = decode_instruction(&mem, 0x1000, 14);
    assert_eq!(i.kind, InstKind::JmpRel8);
    assert_eq!(detour_skip_jmp(&mem, &i), 0x2000);
}

#[test]
fn rounding_to_region_boundaries() {
    assert_eq!(detour_alloc_round_down_to_region(0x1234_5678), 0x1234_0000);
    assert_eq!(detour_alloc_round_down_to_region(0x1234_0000), 0x1234_0000);
    assert_eq!(detour_alloc_round_up_to_region(0x1234_5678), 0x1235_0000);
    assert_eq!(detour_alloc_round_up_to_region(0x1234_0000), 0x1234_0000);
}

#[test]
fn upward_search_skips_an_occupied_stretch() {
    // One segment occupies the first candidate; the walk hops past it.
    let mut mem = Memory {
        segs: vec![seg(0x2000_0000, vec![0u8; 0x30000])],
        dynamic_code_blocked: false,
    };
    let r = detour_alloc_region_from_lo(&mut mem, 0x2000_0000, 0x3000_0000);
    assert_eq!(r, Some(0x2003_0000));
    assert!(mem.segs.iter().any(|s| s.base == 0x2003_0000));
}

#[test]
fn blocked_policy_releases_the_allocation() {
    let mut mem = Memory { segs: vec![], dynamic_code_blocked: true };
    let r = detour_alloc_region_from_lo(&mut mem, 0x2000_0000, 0x3000_0000);
    assert_eq!(r, None);
    assert!(mem.segs.is_empty());
}

#[test]
fn memory_primitives_round_trip() {
    let mut mem = Memory { segs: vec![], dynamic_code_blocked: false };
    // Allocate, query, protect, free.
    assert_eq!(valloc(&mut mem, 0x10000, 0x20, MEM_TYPE_COMMIT | MEM_TYPE_RESERVE), Some(0x10000));
    let q = vquery(&mem, 0x10010);
    assert_eq!(q.state, MEM_TYPE_COMMIT);
    assert_eq!(q.allocation_base, 0x10000);
    assert_eq!(q.region_size, 0x10);
    let q2 = vquery(&mem, 0x20000);
    assert_eq!(q2.state, MEM_TYPE_FREE);
    assert_eq!(vprotect(&mut mem, 0x10000, 0x20, PAGE_FLAG_EXECUTE_READ), Ok(PAGE_FLAG_EXECUTE_READWRITE));
    assert_eq!(vprotect(&mut mem, 0x10000, 0x20, PAGE_FLAG_EXECUTE_READWRITE), Ok(PAGE_FLAG_EXECUTE_READ));
    // Collision on an occupied hint.
    assert_eq!(valloc(&mut mem, 0x10010, 0x20, MEM_TYPE_COMMIT), None);
    assert!(vfree(&mut mem, 0x10000).is_ok());
    assert!(vfree(&mut mem, 0x10000).is_err());
    assert!(mem.segs.is_empty());
}

#[test]
fn region_lock_and_unlock_flip_protection() {
    let mut mem = Memory { segs: vec![], dynamic_code_blocked: false };
    let mut regions = Regions::new();
    let b = regions.alloc_block(&mut mem, 0x40_1000);
    // With no code mapped at the hint the decode fails, but the placement
    // walk still finds free space for a region.
    let b = b.expect("a region should have been placed");
    assert_eq!(b.slot_index, 0);
    let base = regions.regions[0].base;
    assert!(mem.segs.iter().find(|s| s.base == base).unwrap().writable);
    regions.lock(&mut mem).unwrap();
    assert!(!mem.segs.iter().find(|s| s.base == base).unwrap().writable);
    regions.unlock(&mut mem).unwrap();
    assert!(mem.segs.iter().find(|s| s.base == base).unwrap().writable);
    assert!(regions.free_block(&b));
    assert!(!regions.regions[0].state[0]);
}

#[test]
fn hot_patch_pattern_stops_at_the_long_jump_site() {
    // A short jump to a long jump whose destination is immediately another
    // indirect jump through a slot one page past it: the known
    // hot-patchable-function shape. The resolver backs up to the long
    // jump's own address.
    let mut first = vec![0x90u8; 0x100];
    first[0] = 0xEB;
    first[1] = 0x06;
    first[8..13].copy_from_slice(&[0xE9, 0xF3, 0x0F, 0x00, 0x00]);  // to 0x2000
    let mut second = vec![0x90u8; 0x100];
    second[0..6].copy_from_slice(&[0xFF, 0x25, 0x00, 0x30, 0x00, 0x00]);  // [0x3000]
    let mem = Memory {
        segs: vec![seg(0x1000, first), seg(0x2000, second)],
        dynamic_code_blocked: false,
    };
    let i = decode_instruction(&mem, 0x1000, 14);
    assert_eq!(detour_skip_jmp(&mem, &i), 0x1008);
}

#[test]
fn pointer_reads_and_writes_under_a_protection_flip() {
    let mut mem = Memory {
        segs: vec![Segment { base: 0x1000, bytes: vec![0xAA; 0x20], writable: false }],
        dynamic_code_blocked: false,
    };
    let p = Pointer::<0x1008>::new();
    assert_eq!(p.raw_addr(), 0x1008);
    assert_eq!(p.raw_read(&mem, 2), Some(vec![0xAA, 0xAA]));
    assert_eq!(p.raw_write(&mut mem, &vec![0x01, 0x02]), 2);
    assert_eq!(p.raw_read(&mem, 2), Some(vec![0x01, 0x02]));
    // The protection flip was scoped: the page is read-only again.
    assert!(!mem.segs[0].writable);
    // A write outside every mapping reports zero bytes written.
    let q = Pointer::<0x9000>::new();
    assert_eq!(q.raw_write(&mut mem, &vec![0x01]), 0);
}
