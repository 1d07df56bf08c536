//! The instruction-decoder facade.
//!
//! The engine needs exactly one ability from a disassembler: decode the one
//! instruction at an address and report its length, its opcode class among
//! the few the engine distinguishes, and its 32-bit displacement or branch
//! target. Decoding itself is done by the `iced_x86` crate on a byte window
//! read from the modelled memory; the result of that call is named by the
//! uninterpreted function [`decoded`], and everything built on top of it is
//! verified against that name.

use vstd::prelude::*;
use vstd::slice::slice_subrange;

use crate::error::Error;
use crate::memory::Memory;

use iced_x86::{Code, Decoder, DecoderOptions};

verus! {

/// Number of bytes a 32-bit relative jump occupies.
pub const NEEDED_BYTES: usize = 5;

/// Upper bound on the prologue bytes considered for relocation.
pub const PREFETCH_INST_SIZE: usize = 0x20;

/// The longest x86 instruction encoding.
pub const MAX_INST_LEN: usize = 15;

/// The opcode classes the engine distinguishes. Everything that is neither
/// a decode failure, one of the three jump shapes the thunk skipper follows,
/// nor a return, is `Other`.
#[derive(Clone, Copy, Debug, PartialEq, Eq, Structural)]
pub enum InstKind {
    Invalid,
    JmpRel8,
    JmpRel32,
    JmpRm32,
    Ret,
    Other,
}

/// One decoded instruction: its address, its encoded length, its class, and
/// its 32-bit displacement (the absolute memory operand of an indirect jump,
/// or the branch target of a relative one).
#[derive(Clone, Copy, Debug, PartialEq, Eq, Structural)]
pub struct Inst {
    pub ip: u64,
    pub len: usize,
    pub kind: InstKind,
    pub target: u32,
}

/// What decoding the byte window `window` at instruction pointer `ip` (in
/// 32-bit mode) yields: a function of the bytes and the address alone.
pub uninterp spec fn decoded(window: Seq<u8>, ip: u64) -> Inst;

/// The instruction value reported when an address cannot be decoded at all.
pub open spec fn undecodable(ip: u64) -> Inst {
    Inst { ip, len: 0, kind: InstKind::Invalid, target: 0 }
}

/// Relies on `iced_x86::Decoder::with_ip` and `Decoder::decode` (bitness
/// 32): one instruction is decoded from the start of the window, determined
/// by the bytes and the instruction pointer alone; its reported length is
/// the number of window bytes it consumed, between 1 and 15 for anything
/// that decoded successfully. `Instruction::memory_displacement32` reports
/// the memory operand's absolute address, or the target of a near branch.
#[verifier::external_body]
fn decode_slice(window: &[u8], ip: u64) -> (r: Inst)
    ensures
        r == decoded(window@, ip),
        r.ip == ip,
        r.kind != InstKind::Invalid ==> 1 <= r.len <= 15 && r.len <= window@.len(),
{
    let mut dec = Decoder::with_ip(32, window, ip, DecoderOptions::NONE);
    let inst = dec.decode();
    let kind = match inst.code() {
        Code::INVALID => InstKind::Invalid,
        Code::Jmp_rel8_32 => InstKind::JmpRel8,
        Code::Jmp_rel32_32 => InstKind::JmpRel32,
        Code::Jmp_rm32 => InstKind::JmpRm32,
        Code::Retnd | Code::Retnd_imm16 | Code::Retfd | Code::Retfd_imm16 => InstKind::Ret,
        _ => InstKind::Other,
    };
    Inst { ip, len: inst.len(), kind, target: inst.memory_displacement32() }
}

/// What [`decode_instruction`] returns: the decode of the window of up to
/// `max` bytes at `addr`, or the undecodable instruction when `addr` is
/// unmapped.
pub open spec fn spec_decode_at(mem: Memory, addr: u64, max: int) -> Inst {
    if mem.addr_in(addr as int) {
        decoded(mem.window_at(addr as int, max), addr)
    } else {
        undecodable(addr)
    }
}

/// Decode the one instruction at `addr`, reading at most `max` bytes.
pub fn decode_instruction(mem: &Memory, addr: u64, max: usize) -> (r: Inst)
    requires
        mem.wf(),
    ensures
        r == spec_decode_at(*mem, addr, max as int),
        r.ip == addr,
        r.kind != InstKind::Invalid ==> 1 <= r.len <= 15 && r.len <= max,
{
    match mem.read_window(addr, max) {
        None => Inst { ip: addr, len: 0, kind: InstKind::Invalid, target: 0 },
        Some(w) => decode_slice(w.as_slice(), addr),
    }
}

/// True for the instruction classes that end a function: returns and
/// unconditional jumps, which a prologue copy must never run past.
pub open spec fn spec_ends_function(kind: InstKind) -> bool {
    ||| kind == InstKind::Ret
    ||| kind == InstKind::JmpRel8
    ||| kind == InstKind::JmpRel32
    ||| kind == InstKind::JmpRm32
}

/// Whether copying may not continue past `inst`: true for returns and
/// unconditional jumps.
pub fn detour_does_code_end_function(inst: &Inst) -> (r: bool)
    ensures
        r == spec_ends_function(inst.kind),
{
    match inst.kind {
        InstKind::Ret => true,
        InstKind::JmpRel8 => true,
        InstKind::JmpRel32 => true,
        InstKind::JmpRm32 => true,
        InstKind::Invalid => false,
        InstKind::Other => false,
    }
}

/// Walk whole instructions from the start of window `w` (decoded at
/// instruction pointer `t + acc`), accumulating their lengths, until at
/// least [`NEEDED_BYTES`] bytes are covered. `None` when a decode fails, a
/// function-ending instruction is reached, or the window runs out first.
pub open spec fn fetch_rec(w: Seq<u8>, t: u64, acc: nat) -> Option<nat>
    decreases NEEDED_BYTES - acc,
{
    if acc >= NEEDED_BYTES {
        Some(acc)
    } else if acc >= w.len() {
        None
    } else {
        let i = decoded(w.subrange(acc as int, w.len() as int), (t + acc) as u64);
        if i.kind == InstKind::Invalid || i.len == 0 || i.len > w.len() - acc {
            None
        } else {
            let acc2 = (acc + i.len) as nat;
            if acc2 >= NEEDED_BYTES {
                Some(acc2)
            } else if spec_ends_function(i.kind) {
                None
            } else {
                fetch_rec(w, t, acc2)
            }
        }
    }
}

/// A successful prologue walk never covers more than the window it walked.
pub proof fn lemma_fetch_rec_bounds(w: Seq<u8>, t: u64, acc: nat)
    requires
        acc <= w.len(),
    ensures
        fetch_rec(w, t, acc) matches Some(f) ==> acc <= f <= w.len(),
    decreases NEEDED_BYTES - acc,
{
    if acc >= NEEDED_BYTES {
    } else if acc >= w.len() {
    } else {
        let i = decoded(w.subrange(acc as int, w.len() as int), (t + acc) as u64);
        if i.kind == InstKind::Invalid || i.len == 0 || i.len > w.len() - acc {
        } else {
            let acc2 = (acc + i.len) as nat;
            if acc2 >= NEEDED_BYTES {
            } else if spec_ends_function(i.kind) {
            } else {
                lemma_fetch_rec_bounds(w, t, acc2);
            }
        }
    }
}

/// The prologue length chosen at `target`: the smallest instruction-aligned
/// prefix of at least [`NEEDED_BYTES`] bytes within the
/// [`PREFETCH_INST_SIZE`]-byte window, or `None` when the window cannot
/// supply one.
pub open spec fn spec_prologue_fetch(mem: Memory, target: u64) -> Option<nat> {
    if mem.addr_in(target as int) {
        fetch_rec(mem.window_at(target as int, PREFETCH_INST_SIZE as int), target, 0)
    } else {
        None
    }
}

/// A chosen prologue length is a mapped byte range at the target, within
/// the prefetch window.
pub proof fn lemma_prologue_fetch_range(mem: Memory, t: u64, f: nat)
    requires
        mem.wf(),
        spec_prologue_fetch(mem, t) == Some(f),
    ensures
        mem.range_in(t as int, f as int),
        f <= PREFETCH_INST_SIZE,
{
    let w = mem.window_at(t as int, PREFETCH_INST_SIZE as int);
    lemma_fetch_rec_bounds(w, t, 0);
    let i = mem.idx_of(t as int);
    assert(mem.segs@[i].contains(t as int));
    assert(w.len() <= mem.segs@[i].end() - t);
    assert(mem.segs@[i].contains_range(t as int, f as int));
}

/// Decode whole instructions at `target` until at least five bytes are
/// covered, and report how many bytes that prefix has. Fails when the bytes
/// there cannot supply five bytes of whole, relocatable instructions.
pub fn find_prologue_fetch(mem: &Memory, target: u64) -> (r: Result<usize, Error>)
    requires
        mem.wf(),
    ensures
        r matches Ok(f) ==> spec_prologue_fetch(*mem, target) == Some(f as nat) && NEEDED_BYTES
            <= f < NEEDED_BYTES + MAX_INST_LEN,
        r is Err ==> spec_prologue_fetch(*mem, target) is None && r == Err::<usize, Error>(
            Error::InvalidAddress,
        ),
{
    let w = match mem.read_window(target, PREFETCH_INST_SIZE) {
        None => {
            return Err(Error::InvalidAddress);
        },
        Some(w) => w,
    };
    let ghost wview = w@;
    let mut acc: usize = 0;
    loop
        invariant
            mem.wf(),
            wview == w@,
            wview == mem.window_at(target as int, PREFETCH_INST_SIZE as int),
            mem.addr_in(target as int),
            acc < NEEDED_BYTES,
            acc <= wview.len(),
            wview.len() <= PREFETCH_INST_SIZE,
            target + wview.len() <= u64::MAX as int + 1,
            fetch_rec(wview, target, 0 as nat) == fetch_rec(wview, target, acc as nat),
        decreases NEEDED_BYTES - acc,
    {
        if acc >= w.len() {
            return Err(Error::InvalidAddress);
        }
        let sl = slice_subrange(w.as_slice(), acc, w.len());
        let i = decode_slice(sl, target + acc as u64);
        if matches!(i.kind, InstKind::Invalid) || i.len == 0 || i.len > w.len() - acc {
            return Err(Error::InvalidAddress);
        }
        let acc2 = acc + i.len;
        if acc2 >= NEEDED_BYTES {
            return Ok(acc2);
        }
        if detour_does_code_end_function(&i) {
            return Err(Error::InvalidAddress);
        }
        acc = acc2;
    }
}

} // verus!
