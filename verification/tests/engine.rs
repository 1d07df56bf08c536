// End-to-end scenarios for the detour engine, run against the modelled
// address space.

use detours_rs::detours::Detours;
use detours_rs::error::Error;
use detours_rs::memory::{Memory, Segment};

fn seg(base: u64, bytes: Vec<u8>) -> Segment {
    Segment { base, bytes, writable: false }
}

// A code segment whose bytes at `off` hold a classic prologue:
// PUSH EBP; MOV EBP,ESP; SUB ESP,0x10; NOP; RET.
fn module_with_prologue(base: u64, len: usize, off: usize) -> Segment {
    let mut bytes = vec![0x90u8; len];
    let prologue = [0x55, 0x8B, 0xEC, 0x83, 0xEC, 0x10, 0x90, 0xC3];
    bytes[off..off + prologue.len()].copy_from_slice(&prologue);
    seg(base, bytes)
}

fn basic_memory() -> Memory {
    Memory {
        segs: vec![
            module_with_prologue(0x40_0000, 0x2000, 0x1000),
            seg(0x50_0000, vec![0xC3; 0x1000]),
        ],
        dynamic_code_blocked: false,
    }
}

fn read(mem: &Memory, addr: u64, n: usize) -> Vec<u8> {
    mem.read_bytes(addr, n).expect("range should be mapped")
}

fn jmp_bytes_to(src: u64, dst: u64) -> Vec<u8> {
    let disp = dst.wrapping_sub(src.wrapping_add(5)) as u32;
    let mut v = vec![0xE9u8];
    v.extend_from_slice(&disp.to_le_bytes());
    v
}

#[test]
fn attach_patches_target_and_builds_trampoline() {
    let mut mem = basic_memory();
    let target: u64 = 0x40_1000;
    let detour: u64 = 0x50_0000;
    let original = read(&mem, target, 6);

    let d = Detours::new();
    let mut g = d.lock(&mut mem).unwrap();
    assert!(g.attach(&mut mem, target, detour).is_ok());

    let rec = g.detours.get(&target).expect("hook should be installed");
    assert_eq!(rec.target, target);
    assert_eq!(rec.detour, detour);
    assert_eq!(rec.fetch, 6);
    // The slot comes from a fresh region placed one near-radius above the
    // target's region-aligned base.
    let slot = rec.trampoline_addr();
    assert_eq!(slot, 0x4040_0000);
    // The target now opens with a five-byte jump to the detour.
    assert_eq!(read(&mem, target, 5), jmp_bytes_to(target, detour));
    // The byte after the patch is untouched.
    assert_eq!(read(&mem, target + 5, 1), original[5..6]);
    // The trampoline holds the six original bytes, then jumps back.
    assert_eq!(read(&mem, slot, 6), original);
    assert_eq!(read(&mem, slot + 6, 5), jmp_bytes_to(slot + 6, target + 6));
    let tr = rec.trampoline(&mem).expect("trampoline should be readable");
    assert_eq!(tr.bytes[..6], original[..]);

    let done = g.finish(&mut mem);
    // Outside the mutation window the region is executable-read only.
    assert!(!mem.segs.iter().find(|s| s.base == 0x4040_0000).unwrap().writable);
    assert!(done.get(&target).is_some());
}

#[test]
fn detach_restores_the_original_bytes() {
    let mut mem = basic_memory();
    let target: u64 = 0x40_1000;
    let before = read(&mem, target, 8);

    let d = Detours::new();
    let mut g = d.lock(&mut mem).unwrap();
    g.attach(&mut mem, target, 0x50_0000).unwrap();
    assert_ne!(read(&mem, target, 8), before);
    g.detach(&mut mem, &target);
    assert_eq!(read(&mem, target, 8), before);
    assert!(g.detours.get(&target).is_none());
    // The slot went back to its region.
    assert!(!g.detours.regions.regions[0].state[0]);
    g.finish(&mut mem);
}

#[test]
fn null_target_or_detour_is_invalid() {
    let mut mem = basic_memory();
    let d = Detours::new();
    let mut g = d.lock(&mut mem).unwrap();
    assert_eq!(g.attach(&mut mem, 0, 0x50_0000), Err(Error::InvalidAddress));
    assert_eq!(g.attach(&mut mem, 0x40_1000, 0), Err(Error::InvalidAddress));
    g.finish(&mut mem);
}

#[test]
fn target_equal_to_detour_is_invalid() {
    let mut mem = basic_memory();
    let d = Detours::new();
    let mut g = d.lock(&mut mem).unwrap();
    assert_eq!(g.attach(&mut mem, 0x40_1000, 0x40_1000), Err(Error::InvalidAddress));
    g.finish(&mut mem);
}

#[test]
fn short_prologue_is_invalid() {
    // The function opens with RET: no five bytes of whole instructions can
    // be relocated.
    let mut mem = basic_memory();
    let ret_entry: u64 = 0x40_1007;  // the RET of the prologue module
    let d = Detours::new();
    let mut g = d.lock(&mut mem).unwrap();
    assert_eq!(g.attach(&mut mem, ret_entry, 0x50_0000), Err(Error::InvalidAddress));
    assert!(g.detours.get(&ret_entry).is_none());
    g.finish(&mut mem);
}

#[test]
fn dynamic_code_policy_blocks_allocation() {
    let mut mem = basic_memory();
    mem.dynamic_code_blocked = true;
    let segs_before = mem.segs.len();
    let d = Detours::new();
    let mut g = d.lock(&mut mem).unwrap();
    assert_eq!(g.attach(&mut mem, 0x40_1000, 0x50_0000), Err(Error::NotEnoughMemory));
    // No region survives: each allocation the policy blocked was released.
    assert_eq!(mem.segs.len(), segs_before);
    assert_eq!(g.detours.regions.regions.len(), 0);
    g.finish(&mut mem);
}

#[test]
fn unreachable_detour_is_not_enough_memory() {
    let mut mem = basic_memory();
    let target: u64 = 0x40_1000;
    let before = read(&mem, target, 8);
    let far_detour: u64 = 0x9000_0000;  // beyond a signed 32-bit displacement
    let d = Detours::new();
    let mut g = d.lock(&mut mem).unwrap();
    assert_eq!(g.attach(&mut mem, target, far_detour), Err(Error::NotEnoughMemory));
    // All-or-nothing: nothing was written and the slot was released.
    assert_eq!(read(&mem, target, 8), before);
    assert!(g.detours.get(&target).is_none());
    assert!(g.detours.regions.regions.iter().all(|r| r.state.iter().all(|b| !b)));
    g.finish(&mut mem);
}

#[test]
fn reattach_replaces_the_first_hook() {
    let mut mem = basic_memory();
    let target: u64 = 0x40_1000;
    let before = read(&mem, target, 6);
    let d1: u64 = 0x50_0000;
    let d2: u64 = 0x50_0010;

    let d = Detours::new();
    let mut g = d.lock(&mut mem).unwrap();
    g.attach(&mut mem, target, d1).unwrap();
    g.attach(&mut mem, target, d2).unwrap();
    // The target now enters the second detour.
    assert_eq!(read(&mem, target, 5), jmp_bytes_to(target, d2));
    let rec = g.detours.get(&target).unwrap();
    assert_eq!(rec.detour, d2);
    // Exactly one slot is live: occupancy went up by a net zero.
    let live: usize =
        g.detours.regions.regions.iter().map(|r| r.state.iter().filter(|b| **b).count()).sum();
    assert_eq!(live, 1);
    // Detaching still restores the pre-attach bytes.
    g.detach(&mut mem, &target);
    assert_eq!(read(&mem, target, 6), before);
    g.finish(&mut mem);
}

#[test]
fn detach_all_restores_every_target() {
    let mut mem = Memory {
        segs: vec![
            {
                let mut s = module_with_prologue(0x40_0000, 0x2000, 0x1000);
                let prologue = [0x55, 0x8B, 0xEC, 0x83, 0xEC, 0x10, 0x90, 0xC3];
                s.bytes[0x1100..0x1100 + 8].copy_from_slice(&prologue);
                s.bytes[0x1200..0x1200 + 8].copy_from_slice(&prologue);
                s
            },
            seg(0x50_0000, vec![0xC3; 0x1000]),
        ],
        dynamic_code_blocked: false,
    };
    let targets: [u64; 3] = [0x40_1000, 0x40_1100, 0x40_1200];
    let before: Vec<Vec<u8>> = targets.iter().map(|t| read(&mem, *t, 8)).collect();

    let d = Detours::new();
    let mut g = d.lock(&mut mem).unwrap();
    for t in targets.iter() {
        g.attach(&mut mem, *t, 0x50_0000).unwrap();
    }
    g.detach_all(&mut mem);
    for (t, b) in targets.iter().zip(before.iter()) {
        assert_eq!(&read(&mem, *t, 8), b);
    }
    let done = g.finish(&mut mem);
    for t in targets.iter() {
        assert!(done.get(t).is_none());
    }
}

#[test]
fn import_thunk_is_unwrapped_to_the_real_entry() {
    // A module whose image opens with a DOS header, NT headers at 0x80, and
    // an import-address-table directory covering offset 0x1200. The thunk
    // at 0x401100 jumps through the IAT slot at 0x401200, which points at
    // the real function 0x401800.
    let mut bytes = vec![0u8; 0x2000];
    bytes[0] = 0x4D;
    bytes[1] = 0x5A;
    bytes[0x3C..0x40].copy_from_slice(&0x80u32.to_le_bytes());
    bytes[0x80..0x84].copy_from_slice(&0x4550u32.to_le_bytes());
    bytes[0x80 + 216..0x80 + 220].copy_from_slice(&0x1200u32.to_le_bytes());
    bytes[0x80 + 220..0x80 + 224].copy_from_slice(&0x10u32.to_le_bytes());
    bytes[0x1100..0x1106].copy_from_slice(&[0xFF, 0x25, 0x00, 0x12, 0x40, 0x00]);
    bytes[0x1200..0x1204].copy_from_slice(&0x40_1800u32.to_le_bytes());
    let prologue = [0x55, 0x8B, 0xEC, 0x83, 0xEC, 0x10, 0x90, 0xC3];
    bytes[0x1800..0x1808].copy_from_slice(&prologue);
    let mut mem = Memory {
        segs: vec![seg(0x40_0000, bytes), seg(0x50_0000, vec![0xC3; 0x1000])],
        dynamic_code_blocked: false,
    };

    let thunk: u64 = 0x40_1100;
    let real: u64 = 0x40_1800;
    let thunk_before = read(&mem, thunk, 6);

    let d = Detours::new();
    let mut g = d.lock(&mut mem).unwrap();
    g.attach(&mut mem, thunk, 0x50_0000).unwrap();
    // The resolved entry was hooked, not the thunk.
    assert!(g.detours.get(&real).is_some());
    assert!(g.detours.get(&thunk).is_none());
    assert_eq!(read(&mem, thunk, 6), thunk_before);
    assert_eq!(read(&mem, real, 5), jmp_bytes_to(real, 0x50_0000));
    // After detach, the resolved function's bytes are back.
    g.detach(&mut mem, &real);
    assert_eq!(read(&mem, real, 8), prologue.to_vec());
    g.finish(&mut mem);
}

#[test]
fn attach_ptr_uses_the_wrapped_address() {
    let mut mem = basic_memory();
    let d = Detours::new();
    let mut g = d.lock(&mut mem).unwrap();
    let ptr = detours_rs::ext::Pointer::<0x40_1000>::new();
    assert!(g.attach_ptr(&mut mem, &ptr, 0x50_0000).is_ok());
    assert!(g.detours.get(&0x40_1000).is_some());
    g.finish(&mut mem);
}

#[test]
fn blocked_policy_still_allows_a_hinted_slot() {
    // The dynamic-code policy only stops new allocations: a region that
    // already exists keeps serving its free slots.
    let mut mem = Memory {
        segs: vec![
            {
                let mut s = module_with_prologue(0x40_0000, 0x2000, 0x1000);
                let prologue = [0x55, 0x8B, 0xEC, 0x83, 0xEC, 0x10, 0x90, 0xC3];
                s.bytes[0x1100..0x1100 + 8].copy_from_slice(&prologue);
                s
            },
            seg(0x50_0000, vec![0xC3; 0x1000]),
        ],
        dynamic_code_blocked: false,
    };
    let d = Detours::new();
    let mut g = d.lock(&mut mem).unwrap();
    g.attach(&mut mem, 0x40_1000, 0x50_0000).unwrap();
    mem.dynamic_code_blocked = true;
    assert!(g.attach(&mut mem, 0x40_1100, 0x50_0000).is_ok());
    assert!(g.detours.get(&0x40_1100).is_some());
    g.finish(&mut mem);
}
