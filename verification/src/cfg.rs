//! Control-flow graph (CFG) and cross-reference (xref) analysis for MIPS code.
//!
//! [`build_function_cfg`] builds basic blocks by recursive descent from a
//! function entry, splitting blocks at control transfers and respecting the
//! MIPS branch-delay slot. [`build_xref_index`] turns the edges of a set of
//! CFGs into a map from each referenced address to its references.
//! [`resolve_indirect_calls`] names `lw $t9, off($gp); jalr $t9` call sites
//! from a table of import slots.

use vstd::prelude::*;
use vstd::arithmetic::div_mod::lemma_add_mod_noop_right;
use std::collections::{BTreeMap, BTreeSet};
use vstd::std_specs::iter::IteratorSpec;

verus! {

broadcast use vstd::laws_cmp::group_laws_cmp, vstd::std_specs::btree::group_btree_axioms;

// ---------------------------------------------------------------------------
// Control-flow decode
// ---------------------------------------------------------------------------

/// Control-flow classification of a single MIPS instruction.
#[derive(Debug, Clone, Copy, PartialEq, Eq, Structural)]
pub enum Flow {
    /// Not a control-flow instruction.
    Sequential,
    /// Conditional branch (BEQ/BNE/BLEZ/BGTZ/BLTZ/BGEZ, -AL and -L variants).
    CondBranch { target: u32 },
    /// Unconditional jump (J).
    Jump { target: u32 },
    /// Direct call (JAL).
    Call { target: u32 },
    /// Indirect jump (JR); `jr $ra` (rs == 31) is a return.
    Jr { rs: u32 },
    /// Indirect call (JALR).
    Jalr { rs: u32 },
    /// Unknown word, treated as sequential.
    Unknown,
}

/// A decoded MIPS instruction with its control-flow classification.
#[derive(Debug, Clone, Copy, PartialEq, Eq, Structural)]
pub struct MipsInstr {
    /// Absolute address of this instruction.
    pub addr: u32,
    /// Raw 32-bit word.
    pub word: u32,
    /// Control-flow classification.
    pub flow: Flow,
}

/// Branch target: `addr + 4 + sign_extend(imm16) * 4`, modulo 2^32.
pub open spec fn spec_branch_target(word: u32, addr: u32) -> u32 {
    let imm = word & 0xFFFFu32;
    let simm: int = if imm < 0x8000 { imm as int } else { imm as int - 0x10000 };
    (addr as int + 4 + simm * 4) as u32
}

/// Jump target: top four bits of `addr + 4` joined with the 26-bit field shifted left by 2.
pub open spec fn spec_jump_target(word: u32, addr: u32) -> u32 {
    (((addr as int + 4) as u32) & 0xF000_0000u32) | ((word & 0x03FF_FFFFu32) << 2u32)
}

/// The control-flow class of `word` at `addr`.
pub open spec fn spec_decode_flow(word: u32, addr: u32) -> Flow {
    let op = (word >> 26u32) & 0x3Fu32;
    let rs = (word >> 21u32) & 0x1Fu32;
    let rt = (word >> 16u32) & 0x1Fu32;
    let funct = word & 0x3Fu32;
    if op == 0 {
        if funct == 0x08 {
            Flow::Jr { rs }
        } else if funct == 0x09 {
            Flow::Jalr { rs }
        } else {
            Flow::Sequential
        }
    } else if op == 1 {
        if rt == 0x00 || rt == 0x01 || rt == 0x02 || rt == 0x03 || rt == 0x10 || rt == 0x11 {
            Flow::CondBranch { target: spec_branch_target(word, addr) }
        } else {
            Flow::Sequential
        }
    } else if op == 2 {
        Flow::Jump { target: spec_jump_target(word, addr) }
    } else if op == 3 {
        Flow::Call { target: spec_jump_target(word, addr) }
    } else if op == 4 || op == 5 || op == 6 || op == 7 || op == 0x14 || op == 0x15 {
        Flow::CondBranch { target: spec_branch_target(word, addr) }
    } else {
        Flow::Sequential
    }
}

/// Whether a flow transfers control (anything but `Sequential`/`Unknown`).
pub open spec fn is_control(f: Flow) -> bool {
    !(f is Sequential || f is Unknown)
}

/// Decode a single MIPS word into its control-flow classification.
/// `addr` is the word's address; it resolves PC-relative and J/JAL targets.
pub fn decode_flow(word: u32, addr: u32) -> (f: Flow)
    requires
        addr + 4 <= u32::MAX,
    ensures
        f == spec_decode_flow(word, addr),
{
    let op: u32 = (word >> 26) & 0x3F;
    let rs: u32 = (word >> 21) & 0x1F;
    let rt: u32 = (word >> 16) & 0x1F;
    let imm16: u32 = word & 0xFFFF;
    assert(word & 0xFFFFu32 <= 0xFFFFu32) by (bit_vector);
    let signed_imm: i32 = if imm16 < 0x8000 { imm16 as i32 } else { imm16 as i32 - 0x10000 };
    let target_field: u32 = word & 0x03FF_FFFF;
    let funct: u32 = word & 0x3F;
    let branch_target: u32 = (addr as i64 + 4 + (signed_imm as i64) * 4) as u32;
    let jump_target: u32 = ((addr + 4) & 0xF000_0000) | (target_field << 2);
    if op == 0x00 {
        if funct == 0x08 {
            Flow::Jr { rs }
        } else if funct == 0x09 {
            Flow::Jalr { rs }
        } else {
            Flow::Sequential
        }
    } else if op == 0x01 {
        if rt == 0x00 || rt == 0x01 || rt == 0x02 || rt == 0x03 || rt == 0x10 || rt == 0x11 {
            Flow::CondBranch { target: branch_target }
        } else {
            Flow::Sequential
        }
    } else if op == 0x02 {
        Flow::Jump { target: jump_target }
    } else if op == 0x03 {
        Flow::Call { target: jump_target }
    } else if op == 0x04 || op == 0x05 || op == 0x06 || op == 0x07 || op == 0x14 || op == 0x15 {
        Flow::CondBranch { target: branch_target }
    } else {
        Flow::Sequential
    }
}

/// The bits of a J/JAL target: the region of `next` and the word's 26-bit
/// field shifted left by two.
pub(crate) proof fn lemma_region_jump(next: u32, w: u32, t: u32)
    by (bit_vector)
    requires
        t == (next & 0xF000_0000u32) | ((w & 0x03FF_FFFFu32) << 2u32),
    ensures
        t & 0xF000_0000u32 == next & 0xF000_0000u32,
        t & 0x0FFF_FFFFu32 == (w & 0x03FF_FFFFu32) << 2u32,
{
}

/// `jr` (SPECIAL funct 8) and `jalr` (funct 9) transfer through the register
/// of bits 25..21; other SPECIAL words and the opcodes that are no jump or
/// branch fall through.
pub proof fn register_jumps_and_fallthrough(word: u32, addr: u32)
    ensures
        ({
            let op = (word >> 26u32) & 0x3Fu32;
            let f = word & 0x3Fu32;
            let rs = (word >> 21u32) & 0x1Fu32;
            let fl = spec_decode_flow(word, addr);
            &&& (op == 0 && f == 8) ==> fl == Flow::Jr { rs }
            &&& (op == 0 && f == 9) ==> fl == Flow::Jalr { rs }
            &&& (op == 0 && f != 8 && f != 9) ==> fl == Flow::Sequential
            &&& (op >= 8 && op != 0x14 && op != 0x15) ==> fl == Flow::Sequential
        }),
{
}

/// A conditional branch (REGIMM with rt 0, 1, 2, 3, 0x10 or 0x11, or
/// opcode 4..7, 0x14, 0x15) targets the delay slot's address plus four times
/// the sign-extended low 16 bits, whenever that sum stays within 32 bits.
pub proof fn branch_target_is_relative(word: u32, addr: u32)
    requires
        ({
            let op = (word >> 26u32) & 0x3Fu32;
            let rt = (word >> 16u32) & 0x1Fu32;
            (op == 1 && (rt <= 3 || rt == 0x10 || rt == 0x11)) || (4 <= op <= 7) || op == 0x14 || op == 0x15
        }),
    ensures
        ({
            let imm = (word & 0xFFFFu32) as int;
            let simm = if imm < 0x8000 { imm } else { imm - 0x10000 };
            let t = addr + 4 + 4 * simm;
            spec_decode_flow(word, addr) is CondBranch
                && (0 <= t <= u32::MAX ==> spec_decode_flow(word, addr)->CondBranch_target == t)
        }),
{
}

/// A J (opcode 2) is a jump and a JAL (opcode 3) a call, and their target
/// stays in the 256 MiB region of the delay slot: its top four bits are
/// those of `addr + 4`, its low 28 bits the 26-bit field times four.
pub proof fn jump_target_keeps_region(word: u32, addr: u32)
    requires
        addr + 4 <= u32::MAX,
        (word >> 26u32) & 0x3Fu32 == 2 || (word >> 26u32) & 0x3Fu32 == 3,
    ensures
        ((word >> 26u32) & 0x3Fu32 == 2) == (spec_decode_flow(word, addr) is Jump),
        ((word >> 26u32) & 0x3Fu32 == 3) == (spec_decode_flow(word, addr) is Call),
        match spec_decode_flow(word, addr) {
            Flow::Jump { target } => target & 0xF000_0000u32 == ((addr + 4) as u32) & 0xF000_0000u32
                && target & 0x0FFF_FFFFu32 == (word & 0x03FF_FFFFu32) << 2u32,
            Flow::Call { target } => target & 0xF000_0000u32 == ((addr + 4) as u32) & 0xF000_0000u32
                && target & 0x0FFF_FFFFu32 == (word & 0x03FF_FFFFu32) << 2u32,
            _ => false,
        },
{
    lemma_region_jump(((addr + 4) as u32), word, spec_jump_target(word, addr));
}

/// The 32-bit word at byte offset `off`, little- or big-endian.
pub open spec fn word_at(data: Seq<u8>, off: int, is_le: bool) -> u32 {
    if is_le {
        (data[off] as u32) | ((data[off + 1] as u32) << 8u32) | ((data[off + 2] as u32) << 16u32)
            | ((data[off + 3] as u32) << 24u32)
    } else {
        ((data[off] as u32) << 24u32) | ((data[off + 1] as u32) << 16u32) | ((data[off + 2] as u32) << 8u32)
            | (data[off + 3] as u32)
    }
}

pub(crate) proof fn lemma_word_bytes(b0: u8, b1: u8, b2: u8, b3: u8)
    by (bit_vector)
    ensures
        (((b0 as u16) | ((b1 as u16) << 8u16)) as u16) as int == b0 as int + 256 * (b1 as int),
        ((((b0 as u16) << 8u16) | (b1 as u16)) as u16) as int == 256 * (b0 as int) + b1 as int,
        ((b0 as u32) | ((b1 as u32) << 8u32) | ((b2 as u32) << 16u32) | ((b3 as u32) << 24u32)) as int
            == b0 as int + 256 * (b1 as int) + 65536 * (b2 as int) + 16777216 * (b3 as int),
        (((b0 as u32) << 24u32) | ((b1 as u32) << 16u32) | ((b2 as u32) << 8u32) | (b3 as u32)) as int
            == 16777216 * (b0 as int) + 65536 * (b1 as int) + 256 * (b2 as int) + b3 as int,
{
}

/// A 32-bit word read at `off` is its four bytes as a number: least
/// significant first when little-endian, most significant first otherwise.
pub proof fn word_at_is_bytes(data: Seq<u8>, off: int, is_le: bool)
    requires
        0 <= off,
        off + 4 <= data.len(),
    ensures
        is_le ==> word_at(data, off, is_le) as int == data[off] + 256 * data[off + 1] + 65536 * data[off + 2]
            + 16777216 * data[off + 3],
        !is_le ==> word_at(data, off, is_le) as int == 16777216 * data[off] + 65536 * data[off + 1]
            + 256 * data[off + 2] + data[off + 3],
{
    lemma_word_bytes(data[off], data[off + 1], data[off + 2], data[off + 3]);
}

/// Reads the word at `off` (the caller guarantees `off + 4 <= data.len()`).
pub fn read_word(data: &[u8], off: usize, is_le: bool) -> (w: u32)
    requires
        off + 4 <= data.len(),
    ensures
        w == word_at(data@, off as int, is_le),
{
    if is_le {
        (data[off] as u32) | ((data[off + 1] as u32) << 8) | ((data[off + 2] as u32) << 16)
            | ((data[off + 3] as u32) << 24)
    } else {
        ((data[off] as u32) << 24) | ((data[off + 1] as u32) << 16) | ((data[off + 2] as u32) << 8)
            | (data[off + 3] as u32)
    }
}

/// The address of byte `offset` of a section loaded at `base_addr`,
/// wrapping at 32 bits.
pub open spec fn wrapped_addr(base_addr: u32, offset: int) -> u32 {
    ((base_addr as int + offset) % 0x1_0000_0000) as u32
}

/// The decoded instruction at `offset`, or `None` when fewer than four bytes remain.
pub open spec fn spec_decode_at(data: Seq<u8>, offset: int, base_addr: u32, is_le: bool) -> Option<MipsInstr> {
    if offset + 4 > data.len() {
        None
    } else {
        let addr = wrapped_addr(base_addr, offset);
        let word = word_at(data, offset, is_le);
        Some(MipsInstr { addr, word, flow: spec_decode_flow(word, addr) })
    }
}

/// Decode the word at byte `offset` of a section loaded at `base_addr` (the
/// address wraps at 32 bits). Returns `None` when the offset leaves fewer
/// than four bytes.
pub fn decode_at(data: &[u8], offset: usize, base_addr: u32, is_le: bool) -> (r: Option<MipsInstr>)
    requires
        offset + 4 <= data.len() ==> wrapped_addr(base_addr, offset as int) + 4 <= u32::MAX,
    ensures
        r == spec_decode_at(data@, offset as int, base_addr, is_le),
{
    if offset > data.len() || data.len() - offset < 4 {
        return None;
    }
    let word: u32 = read_word(data, offset, is_le);
    let o: u64 = (offset as u64) % 0x1_0000_0000;
    let sum: u64 = base_addr as u64 + o;
    let addr: u32 = (sum % 0x1_0000_0000) as u32;
    proof {
        lemma_add_mod_noop_right(base_addr as int, offset as int, 0x1_0000_0000);
    }
    Some(MipsInstr { addr, word, flow: decode_flow(word, addr) })
}

// ---------------------------------------------------------------------------
// Basic blocks and per-function CFG
// ---------------------------------------------------------------------------

/// A basic block: a straight-line run of instructions entered only at `start`.
#[derive(Debug, Clone)]
pub struct BasicBlock {
    /// Address of the first instruction.
    pub start: u32,
    /// Address just past the last instruction.
    pub end: u32,
    /// The instructions, as (address, word) pairs.
    pub instrs: Vec<(u32, u32)>,
}

/// Kind of edge between basic blocks.
#[derive(Debug, Clone, Copy, PartialEq, Eq, Structural)]
pub enum EdgeKind {
    /// Natural fall-through.
    Fallthrough,
    /// Conditional branch taken.
    BranchTaken,
    /// Conditional branch not taken (fall-through after the delay slot).
    BranchNotTaken,
    /// Unconditional jump (J).
    Jump,
    /// Direct call (JAL); the callee is a separate function.
    Call,
}

/// An edge of the CFG.
#[derive(Debug, Clone, Copy, PartialEq, Eq, Structural)]
pub struct CfgEdge {
    pub from: u32,
    pub to: u32,
    pub kind: EdgeKind,
}

/// A per-function control-flow graph.
#[derive(Debug, Clone)]
pub struct FunctionCfg {
    /// Function entry address.
    pub entry: u32,
    /// Basic blocks keyed by start address.
    pub blocks: BTreeMap<u32, BasicBlock>,
    /// Edges between blocks.
    pub edges: Vec<CfgEdge>,
    /// Whether a `jr $ra` terminates some block.
    pub does_return: bool,
}

/// `lo <= addr < hi`.
pub fn in_range(addr: u32, lo: u32, hi: u32) -> (b: bool)
    ensures
        b == (lo <= addr && addr < hi),
{
    addr >= lo && addr < hi
}

/// A block is a run of consecutive words read from `data` at its start
/// address, in which a control transfer can only be the last instruction or
/// the one before it (the transfer followed by its delay slot).
pub open spec fn block_wf(data: Seq<u8>, base: u32, is_le: bool, b: BasicBlock) -> bool {
    &&& base <= b.start
    &&& b.end == b.start + 4 * b.instrs@.len()
    &&& (b.instrs@.len() == 0 || b.start - base + 4 * b.instrs@.len() <= data.len())
    &&& forall|i: int| 0 <= i < b.instrs@.len() ==> #[trigger] b.instrs@[i] == (
        (b.start + 4 * i) as u32,
        word_at(data, b.start - base + 4 * i, is_le),
    )
    &&& forall|i: int| 0 <= i < b.instrs@.len() - 2 ==> !is_control(
        spec_decode_flow(#[trigger] b.instrs@[i].1, b.instrs@[i].0),
    )
}

/// Some instruction of block `b` has control flow `f`.
pub open spec fn block_has_flow(b: BasicBlock, f: Flow) -> bool {
    exists|i: int| 0 <= i < b.instrs@.len() && spec_decode_flow(#[trigger] b.instrs@[i].1, b.instrs@[i].0) == f
}

/// What every edge of a CFG promises.
pub open spec fn edge_ok(e: CfgEdge, blocks: Map<u32, BasicBlock>, func_start: u32, func_end: u32) -> bool {
    &&& e.kind != EdgeKind::Fallthrough ==> blocks.contains_key(e.from)
    &&& (e.kind == EdgeKind::BranchTaken || e.kind == EdgeKind::Jump) ==> func_start <= e.to && e.to < func_end
    &&& e.kind == EdgeKind::BranchTaken ==> block_has_flow(blocks[e.from], Flow::CondBranch { target: e.to })
    &&& e.kind == EdgeKind::Jump ==> block_has_flow(blocks[e.from], Flow::Jump { target: e.to })
    &&& e.kind == EdgeKind::Call ==> block_has_flow(blocks[e.from], Flow::Call { target: e.to })
}

/// The blocks of a CFG: keyed by their start, inside `[base, func_end)` with
/// every instruction starting below `func_end`, well formed.
pub open spec fn blocks_ok(data: Seq<u8>, base: u32, func_end: u32, is_le: bool, blocks: Map<u32, BasicBlock>) -> bool {
    forall|k: u32| #[trigger] blocks.contains_key(k) ==> {
        &&& blocks[k].start == k
        &&& base <= k && k < func_end
        &&& blocks[k].end < func_end + 4
        &&& block_wf(data, base, is_le, blocks[k])
    }
}

/// Some block ends in (contains) a `jr $ra`.
pub open spec fn has_return_block(blocks: Map<u32, BasicBlock>) -> bool {
    exists|k: u32| #[trigger] blocks.contains_key(k) && block_has_flow(blocks[k], Flow::Jr { rs: 31 })
}

/// The control flow of instruction `i` of block `b`.
pub open spec fn flow_at(b: BasicBlock, i: int) -> Flow {
    spec_decode_flow(b.instrs@[i].1, b.instrs@[i].0)
}

/// The index of the control transfer that ends block `b`: the one before
/// the last instruction (the last being its delay slot), or the last one
/// when no delay slot followed it; `None` for a block without a transfer.
pub open spec fn term_index(b: BasicBlock) -> Option<int> {
    let n = b.instrs@.len() as int;
    if n >= 2 && is_control(flow_at(b, n - 2)) {
        Some(n - 2)
    } else if n >= 1 && is_control(flow_at(b, n - 1)) {
        Some(n - 1)
    } else {
        None
    }
}

/// The word after block `b` is in the data and below `func_end`.
pub open spec fn next_available(data: Seq<u8>, base: u32, func_end: u32, b: BasicBlock) -> bool {
    let n = b.instrs@.len() as int;
    b.start - base + 4 * n + 4 <= data.len() && b.start + 4 * n < func_end
}

/// How block `b` ends: at its transfer plus delay slot (the delay slot is
/// missing only when no word follows in the data below `func_end`), or,
/// without a transfer, where no word follows or at the start of another block.
pub open spec fn block_shape(data: Seq<u8>, base: u32, func_end: u32, blocks: Map<u32, BasicBlock>, b: BasicBlock) -> bool {
    let n = b.instrs@.len() as int;
    match term_index(b) {
        Some(j) => j == n - 2 || !next_available(data, base, func_end, b),
        None => !next_available(data, base, func_end, b) || (n > 0 && blocks.contains_key(b.end)),
    }
}

/// `s` is a block the recursive descent goes on to from block `b`: a
/// conditional branch's target (inside the function) and the address after
/// its delay slot; a jump's target (inside the function); the address after
/// a call's or an indirect call's delay slot.
pub open spec fn is_succ(b: BasicBlock, s: u32, func_start: u32, func_end: u32) -> bool {
    match term_index(b) {
        Some(j) => match flow_at(b, j) {
            Flow::CondBranch { target } => (s == target && func_start <= target < func_end) || s == b.end,
            Flow::Jump { target } => s == target && func_start <= target < func_end,
            Flow::Call { target } => s == b.end,
            Flow::Jalr { rs } => s == b.end,
            _ => false,
        },
        None => false,
    }
}

/// `e` is an edge that block `b`'s transfer produces.
pub open spec fn block_edge(b: BasicBlock, e: CfgEdge, func_start: u32, func_end: u32) -> bool {
    &&& e.from == b.start
    &&& match term_index(b) {
        Some(j) => match flow_at(b, j) {
            Flow::CondBranch { target } => (e.kind == EdgeKind::BranchTaken && e.to == target && func_start <= target < func_end)
                || (e.kind == EdgeKind::BranchNotTaken && e.to == b.end),
            Flow::Jump { target } => e.kind == EdgeKind::Jump && e.to == target && func_start <= target < func_end,
            Flow::Call { target } => (e.kind == EdgeKind::Call && e.to == target) || (e.kind == EdgeKind::Fallthrough && e.to == b.end),
            Flow::Jalr { rs } => e.kind == EdgeKind::Fallthrough && e.to == b.end,
            _ => false,
        },
        None => false,
    }
}

/// Block `b` has no transfer and ran into the start of another block.
pub open spec fn runs_into(data: Seq<u8>, base: u32, func_end: u32, blocks: Map<u32, BasicBlock>, b: BasicBlock) -> bool {
    &&& term_index(b) is None
    &&& b.instrs@.len() > 0
    &&& next_available(data, base, func_end, b)
    &&& blocks.contains_key(b.end)
}

/// `e` is the fall-through edge of a block without a transfer that ran into
/// the block starting at its end: from the block to that end.
pub open spec fn hit_edge(blocks: Map<u32, BasicBlock>, e: CfgEdge) -> bool {
    &&& e.kind == EdgeKind::Fallthrough
    &&& blocks.contains_key(e.from)
    &&& term_index(blocks[e.from]) is None
    &&& blocks[e.from].instrs@.len() > 0
    &&& e.to == blocks[e.from].end
    &&& blocks.contains_key(e.to)
}

/// Some block is terminated by `jr $ra`.
pub open spec fn returns_in(blocks: Map<u32, BasicBlock>) -> bool {
    exists|k: u32| #[trigger] blocks.contains_key(k) && match term_index(blocks[k]) {
        Some(j) => flow_at(blocks[k], j) == (Flow::Jr { rs: 31 }),
        None => false,
    }
}

proof fn lemma_push_keeps(w: Seq<u32>, x: u32)
    ensures
        forall|s: u32| #[trigger] w.push(x).contains(s) <==> (w.contains(s) || s == x),
{
    assert forall|s: u32| #[trigger] w.push(x).contains(s) <==> (w.contains(s) || s == x) by {
        if w.contains(s) {
            let i = choose|i: int| 0 <= i < w.len() && w[i] == s;
            assert(w.push(x)[i] == s);
        }
        if s == x {
            assert(w.push(x)[w.len() as int] == s);
        }
        if w.push(x).contains(s) {
            let i = choose|i: int| 0 <= i < w.len() + 1 && w.push(x)[i] == s;
            if i < w.len() {
                assert(w[i] == s);
            }
        }
    }
}

proof fn lemma_term_of(b: BasicBlock, m: int)
    requires
        m >= 1,
        b.instrs@.len() == m || b.instrs@.len() == m + 1,
        forall|i: int| 0 <= i < m - 1 ==> !is_control(#[trigger] flow_at(b, i)),
        is_control(flow_at(b, m - 1)),
    ensures
        term_index(b) == Some(m - 1),
{
    if b.instrs@.len() == m && m >= 2 {
        assert(!is_control(flow_at(b, m - 2)));
    }
}

proof fn lemma_term_none(b: BasicBlock)
    requires
        forall|i: int| 0 <= i < b.instrs@.len() ==> !is_control(#[trigger] flow_at(b, i)),
    ensures
        term_index(b) is None,
{
    let n = b.instrs@.len() as int;
    if n >= 2 {
        assert(!is_control(flow_at(b, n - 2)));
    }
    if n >= 1 {
        assert(!is_control(flow_at(b, n - 1)));
    }
}

/// Adding block `nb` at `start` (with its edges `ne` and work items `pw`)
/// keeps what the recursive descent promises.
#[verifier::rlimit(40)]
proof fn lemma_grow(
    data: Seq<u8>,
    base: u32,
    old: Map<u32, BasicBlock>,
    new: Map<u32, BasicBlock>,
    start: u32,
    nb: BasicBlock,
    fs: u32,
    fe: u32,
    e0: Seq<CfgEdge>,
    ne: Seq<CfgEdge>,
    w0: Seq<u32>,
    pw: Seq<u32>,
    dr0: bool,
    dr: bool,
)
    requires
        !old.contains_key(start),
        new == old.insert(start, nb),
        nb.start == start,
        block_shape(data, base, fe, new, nb),
        forall|k: u32| #[trigger] old.contains_key(k) ==> block_shape(data, base, fe, old, old[k]),
        forall|k: u32, s: u32| #![trigger old.contains_key(k), is_succ(old[k], s, fs, fe)]
            old.contains_key(k) && is_succ(old[k], s, fs, fe) && base <= s < fe ==> old.contains_key(s) || w0.contains(s) || s == start,
        forall|i: int| 0 <= i < e0.len() ==> hit_edge(old, #[trigger] e0[i]) || exists|k: u32|
            #[trigger] old.contains_key(k) && block_edge(old[k], e0[i], fs, fe),
        forall|k: u32, e: CfgEdge| #![trigger old.contains_key(k), block_edge(old[k], e, fs, fe)]
            old.contains_key(k) && block_edge(old[k], e, fs, fe) ==> e0.contains(e),
        dr0 == returns_in(old),
        forall|e: CfgEdge| #[trigger] ne.contains(e) ==> block_edge(nb, e, fs, fe) || hit_edge(new, e),
        forall|e: CfgEdge| #[trigger] block_edge(nb, e, fs, fe) ==> ne.contains(e),
        forall|s: u32| #[trigger] is_succ(nb, s, fs, fe) ==> pw.contains(s),
        dr == (dr0 || match term_index(nb) { Some(j) => flow_at(nb, j) == (Flow::Jr { rs: 31 }), None => false }),
    ensures
        forall|k: u32| #[trigger] new.contains_key(k) ==> block_shape(data, base, fe, new, new[k]),
        forall|k: u32, s: u32| #![trigger new.contains_key(k), is_succ(new[k], s, fs, fe)]
            new.contains_key(k) && is_succ(new[k], s, fs, fe) && base <= s < fe ==> new.contains_key(s) || (w0 + pw).contains(s),
        forall|i: int| 0 <= i < (e0 + ne).len() ==> hit_edge(new, #[trigger] (e0 + ne)[i]) || exists|k: u32|
            #[trigger] new.contains_key(k) && block_edge(new[k], (e0 + ne)[i], fs, fe),
        forall|k: u32, e: CfgEdge| #![trigger new.contains_key(k), block_edge(new[k], e, fs, fe)]
            new.contains_key(k) && block_edge(new[k], e, fs, fe) ==> (e0 + ne).contains(e),
        dr == returns_in(new),
{
    let es = e0 + ne;
    let ws = w0 + pw;
    assert forall|k: u32| #[trigger] new.contains_key(k) implies block_shape(data, base, fe, new, new[k]) by {
        if k != start {
            assert(old.contains_key(k));
            assert(block_shape(data, base, fe, old, old[k]));
        }
    }
    assert forall|s: u32| w0.contains(s) implies #[trigger] ws.contains(s) by {
        let i = choose|i: int| 0 <= i < w0.len() && w0[i] == s;
        assert(ws[i] == s);
    }
    assert forall|s: u32| pw.contains(s) implies #[trigger] ws.contains(s) by {
        let i = choose|i: int| 0 <= i < pw.len() && pw[i] == s;
        assert(ws[w0.len() + i] == s);
    }
    assert forall|k: u32, s: u32| #![trigger new.contains_key(k), is_succ(new[k], s, fs, fe)]
        new.contains_key(k) && is_succ(new[k], s, fs, fe) && base <= s < fe implies new.contains_key(s) || ws.contains(s) by {
        if k == start {
            assert(pw.contains(s));
        } else {
            assert(old.contains_key(k) && new[k] == old[k]);
            if w0.contains(s) {
                assert(ws.contains(s));
            }
        }
    }
    assert forall|e: CfgEdge| e0.contains(e) implies #[trigger] es.contains(e) by {
        let i = choose|i: int| 0 <= i < e0.len() && e0[i] == e;
        assert(es[i] == e);
    }
    assert forall|e: CfgEdge| ne.contains(e) implies #[trigger] es.contains(e) by {
        let i = choose|i: int| 0 <= i < ne.len() && ne[i] == e;
        assert(es[e0.len() + i] == e);
    }
    assert forall|i: int| 0 <= i < es.len() implies hit_edge(new, #[trigger] es[i]) || exists|k: u32|
        #[trigger] new.contains_key(k) && block_edge(new[k], es[i], fs, fe) by {
        if i < e0.len() {
            assert(es[i] == e0[i]);
            if hit_edge(old, e0[i]) {
                assert(new[e0[i].from] == old[e0[i].from]);
            } else {
                let k = choose|k: u32| #[trigger] old.contains_key(k) && block_edge(old[k], e0[i], fs, fe);
                assert(new.contains_key(k) && new[k] == old[k]);
            }
        } else {
            assert(es[i] == ne[i - e0.len()]);
            assert(ne.contains(ne[i - e0.len()]));
            if !hit_edge(new, es[i]) {
                assert(block_edge(nb, es[i], fs, fe));
                assert(new.contains_key(start) && new[start] == nb);
            }
        }
    }
    assert forall|k: u32, e: CfgEdge| #![trigger new.contains_key(k), block_edge(new[k], e, fs, fe)]
        new.contains_key(k) && block_edge(new[k], e, fs, fe) implies es.contains(e) by {
        if k == start {
            assert(ne.contains(e));
        } else {
            assert(old.contains_key(k) && new[k] == old[k]);
            assert(e0.contains(e));
        }
    }
    if dr {
        if dr0 {
            let k = choose|k: u32| #[trigger] old.contains_key(k) && match term_index(old[k]) {
                Some(j) => flow_at(old[k], j) == (Flow::Jr { rs: 31 }),
                None => false,
            };
            assert(new.contains_key(k) && new[k] == old[k]);
        } else {
            assert(new.contains_key(start) && new[start] == nb);
        }
    }
    if returns_in(new) {
        let k = choose|k: u32| #[trigger] new.contains_key(k) && match term_index(new[k]) {
            Some(j) => flow_at(new[k], j) == (Flow::Jr { rs: 31 }),
            None => false,
        };
        if k != start {
            assert(old.contains_key(k) && new[k] == old[k]);
        }
    }
}

/// Adding block `nb` keeps where blocks come from and the run-into edges.
#[verifier::rlimit(40)]
proof fn lemma_grow_origin1(
    data: Seq<u8>,
    base: u32,
    old: Map<u32, BasicBlock>,
    new: Map<u32, BasicBlock>,
    start: u32,
    nb: BasicBlock,
    fs: u32,
    fe: u32,
    e0: Seq<CfgEdge>,
    ne: Seq<CfgEdge>,
    w0: Seq<u32>,
    pw: Seq<u32>,
)
    requires
        !old.contains_key(start),
        new == old.insert(start, nb),
        nb.start == start,
        forall|k: u32| #[trigger] old.contains_key(k) ==> block_shape(data, base, fe, old, old[k]),
        start == fs || exists|k2: u32| #[trigger] old.contains_key(k2) && is_succ(old[k2], start, fs, fe),
        forall|k: u32| #[trigger] old.contains_key(k) ==> k == fs || exists|k2: u32|
            #[trigger] old.contains_key(k2) && is_succ(old[k2], k, fs, fe),
        forall|i: int| 0 <= i < w0.len() ==> #[trigger] w0[i] == fs || exists|k2: u32|
            #[trigger] old.contains_key(k2) && is_succ(old[k2], w0[i], fs, fe),
        forall|s: u32| #[trigger] pw.contains(s) ==> is_succ(nb, s, fs, fe),
        forall|k: u32| #[trigger] old.contains_key(k) && runs_into(data, base, fe, old, old[k])
            ==> e0.contains(CfgEdge { from: k, to: old[k].end, kind: EdgeKind::Fallthrough }),
        runs_into(data, base, fe, new, nb) ==> ne.contains(CfgEdge { from: start, to: nb.end, kind: EdgeKind::Fallthrough }),
    ensures
        forall|k: u32| #[trigger] new.contains_key(k) ==> k == fs || exists|k2: u32|
            #[trigger] new.contains_key(k2) && is_succ(new[k2], k, fs, fe),
{
    let es = e0 + ne;
    let ws = w0 + pw;
    assert forall|k: u32| #[trigger] new.contains_key(k) implies k == fs || exists|k2: u32|
        #[trigger] new.contains_key(k2) && is_succ(new[k2], k, fs, fe) by {
        if k == start {
            if start != fs {
                let k2 = choose|k2: u32| #[trigger] old.contains_key(k2) && is_succ(old[k2], start, fs, fe);
                assert(new.contains_key(k2) && new[k2] == old[k2]);
            }
        } else if k != fs {
            let k2 = choose|k2: u32| #[trigger] old.contains_key(k2) && is_succ(old[k2], k, fs, fe);
            assert(new.contains_key(k2) && new[k2] == old[k2]);
        }
    }
}

/// Adding block `nb` keeps where blocks come from and the run-into edges.
#[verifier::rlimit(40)]
proof fn lemma_grow_origin2(
    data: Seq<u8>,
    base: u32,
    old: Map<u32, BasicBlock>,
    new: Map<u32, BasicBlock>,
    start: u32,
    nb: BasicBlock,
    fs: u32,
    fe: u32,
    e0: Seq<CfgEdge>,
    ne: Seq<CfgEdge>,
    w0: Seq<u32>,
    pw: Seq<u32>,
)
    requires
        !old.contains_key(start),
        new == old.insert(start, nb),
        nb.start == start,
        forall|k: u32| #[trigger] old.contains_key(k) ==> block_shape(data, base, fe, old, old[k]),
        start == fs || exists|k2: u32| #[trigger] old.contains_key(k2) && is_succ(old[k2], start, fs, fe),
        forall|k: u32| #[trigger] old.contains_key(k) ==> k == fs || exists|k2: u32|
            #[trigger] old.contains_key(k2) && is_succ(old[k2], k, fs, fe),
        forall|i: int| 0 <= i < w0.len() ==> #[trigger] w0[i] == fs || exists|k2: u32|
            #[trigger] old.contains_key(k2) && is_succ(old[k2], w0[i], fs, fe),
        forall|s: u32| #[trigger] pw.contains(s) ==> is_succ(nb, s, fs, fe),
        forall|k: u32| #[trigger] old.contains_key(k) && runs_into(data, base, fe, old, old[k])
            ==> e0.contains(CfgEdge { from: k, to: old[k].end, kind: EdgeKind::Fallthrough }),
        runs_into(data, base, fe, new, nb) ==> ne.contains(CfgEdge { from: start, to: nb.end, kind: EdgeKind::Fallthrough }),
    ensures
        forall|i: int| 0 <= i < (w0 + pw).len() ==> #[trigger] (w0 + pw)[i] == fs || exists|k2: u32|
            #[trigger] new.contains_key(k2) && is_succ(new[k2], (w0 + pw)[i], fs, fe),
{
    let es = e0 + ne;
    let ws = w0 + pw;
    assert forall|i: int| 0 <= i < ws.len() implies #[trigger] ws[i] == fs || exists|k2: u32|
        #[trigger] new.contains_key(k2) && is_succ(new[k2], ws[i], fs, fe) by {
        if i < w0.len() {
            assert(ws[i] == w0[i]);
            if w0[i] != fs {
                let k2 = choose|k2: u32| #[trigger] old.contains_key(k2) && is_succ(old[k2], w0[i], fs, fe);
                assert(new.contains_key(k2) && new[k2] == old[k2]);
            }
        } else {
            assert(ws[i] == pw[i - w0.len()]);
            assert(pw.contains(pw[i - w0.len()]));
            assert(new.contains_key(start) && new[start] == nb);
        }
    }
}

/// Adding block `nb` keeps where blocks come from and the run-into edges.
#[verifier::rlimit(40)]
proof fn lemma_grow_origin3(
    data: Seq<u8>,
    base: u32,
    old: Map<u32, BasicBlock>,
    new: Map<u32, BasicBlock>,
    start: u32,
    nb: BasicBlock,
    fs: u32,
    fe: u32,
    e0: Seq<CfgEdge>,
    ne: Seq<CfgEdge>,
    w0: Seq<u32>,
    pw: Seq<u32>,
)
    requires
        !old.contains_key(start),
        new == old.insert(start, nb),
        nb.start == start,
        forall|k: u32| #[trigger] old.contains_key(k) ==> block_shape(data, base, fe, old, old[k]),
        start == fs || exists|k2: u32| #[trigger] old.contains_key(k2) && is_succ(old[k2], start, fs, fe),
        forall|k: u32| #[trigger] old.contains_key(k) ==> k == fs || exists|k2: u32|
            #[trigger] old.contains_key(k2) && is_succ(old[k2], k, fs, fe),
        forall|i: int| 0 <= i < w0.len() ==> #[trigger] w0[i] == fs || exists|k2: u32|
            #[trigger] old.contains_key(k2) && is_succ(old[k2], w0[i], fs, fe),
        forall|s: u32| #[trigger] pw.contains(s) ==> is_succ(nb, s, fs, fe),
        forall|k: u32| #[trigger] old.contains_key(k) && runs_into(data, base, fe, old, old[k])
            ==> e0.contains(CfgEdge { from: k, to: old[k].end, kind: EdgeKind::Fallthrough }),
        runs_into(data, base, fe, new, nb) ==> ne.contains(CfgEdge { from: start, to: nb.end, kind: EdgeKind::Fallthrough }),
    ensures
        forall|k: u32| #[trigger] new.contains_key(k) && runs_into(data, base, fe, new, new[k])
            ==> (e0 + ne).contains(CfgEdge { from: k, to: new[k].end, kind: EdgeKind::Fallthrough }),
{
    let es = e0 + ne;
    let ws = w0 + pw;
    assert forall|k: u32| #[trigger] new.contains_key(k) && runs_into(data, base, fe, new, new[k])
        implies es.contains(CfgEdge { from: k, to: new[k].end, kind: EdgeKind::Fallthrough }) by {
        let e = CfgEdge { from: k, to: new[k].end, kind: EdgeKind::Fallthrough };
        if k == start {
            assert(ne.contains(e));
            let i = choose|i: int| 0 <= i < ne.len() && ne[i] == e;
            assert(es[e0.len() + i] == e);
        } else {
            assert(old.contains_key(k) && new[k] == old[k]);
            assert(block_shape(data, base, fe, old, old[k]));
            assert(runs_into(data, base, fe, old, old[k]));
            assert(e0.contains(e));
            let i = choose|i: int| 0 <= i < e0.len() && e0[i] == e;
            assert(es[i] == e);
        }
    }
}

/// What the recursive descent keeps while it runs: every block's shape,
/// where each block and each pending work item comes from, the successors
/// of every block being blocks or pending, the edges being exactly those the
/// blocks produce, and the return flag.
#[verifier::opaque]
spec fn walk_inv(
    data: Seq<u8>,
    base: u32,
    fs: u32,
    fe: u32,
    blocks: Map<u32, BasicBlock>,
    work: Seq<u32>,
    edges: Seq<CfgEdge>,
    dr: bool,
) -> bool {
    &&& forall|k: u32| #[trigger] blocks.contains_key(k) ==> block_shape(data, base, fe, blocks, blocks[k])
    &&& forall|k: u32| #[trigger] blocks.contains_key(k) ==> k == fs || exists|k2: u32|
        #[trigger] blocks.contains_key(k2) && is_succ(blocks[k2], k, fs, fe)
    &&& forall|i: int| 0 <= i < work.len() ==> #[trigger] work[i] == fs || exists|k2: u32|
        #[trigger] blocks.contains_key(k2) && is_succ(blocks[k2], work[i], fs, fe)
    &&& forall|k: u32| #[trigger] blocks.contains_key(k) && runs_into(data, base, fe, blocks, blocks[k])
        ==> edges.contains(CfgEdge { from: k, to: blocks[k].end, kind: EdgeKind::Fallthrough })
    &&& forall|k: u32, s: u32| #![trigger blocks.contains_key(k), is_succ(blocks[k], s, fs, fe)]
        blocks.contains_key(k) && is_succ(blocks[k], s, fs, fe) && base <= s < fe ==> blocks.contains_key(s) || work.contains(s)
    &&& forall|i: int| 0 <= i < edges.len() ==> hit_edge(blocks, #[trigger] edges[i]) || exists|k: u32|
        #[trigger] blocks.contains_key(k) && block_edge(blocks[k], edges[i], fs, fe)
    &&& forall|k: u32, e: CfgEdge| #![trigger blocks.contains_key(k), block_edge(blocks[k], e, fs, fe)]
        blocks.contains_key(k) && block_edge(blocks[k], e, fs, fe) ==> edges.contains(e)
    &&& dr == returns_in(blocks)
}

/// Dropping a work item that is outside the function or already a block.
proof fn lemma_walk_pop(
    data: Seq<u8>,
    base: u32,
    fs: u32,
    fe: u32,
    blocks: Map<u32, BasicBlock>,
    w: Seq<u32>,
    start: u32,
    edges: Seq<CfgEdge>,
    dr: bool,
)
    requires
        walk_inv(data, base, fs, fe, blocks, w.push(start), edges, dr),
        !(base <= start < fe) || blocks.contains_key(start),
    ensures
        walk_inv(data, base, fs, fe, blocks, w, edges, dr),
{
    reveal(walk_inv);
    lemma_push_keeps(w, start);
    assert forall|i: int| 0 <= i < w.len() implies #[trigger] w[i] == fs || exists|k2: u32|
        #[trigger] blocks.contains_key(k2) && is_succ(blocks[k2], w[i], fs, fe) by {
        assert(w.push(start)[i] == w[i]);
    }
}

/// Adding the block decoded from the popped work item `start`.
proof fn lemma_walk_grow(
    data: Seq<u8>,
    base: u32,
    fs: u32,
    fe: u32,
    old: Map<u32, BasicBlock>,
    new: Map<u32, BasicBlock>,
    start: u32,
    nb: BasicBlock,
    e0: Seq<CfgEdge>,
    ne: Seq<CfgEdge>,
    w: Seq<u32>,
    pw: Seq<u32>,
    dr0: bool,
    dr: bool,
)
    requires
        walk_inv(data, base, fs, fe, old, w.push(start), e0, dr0),
        !old.contains_key(start),
        new == old.insert(start, nb),
        nb.start == start,
        block_shape(data, base, fe, new, nb),
        forall|e: CfgEdge| #[trigger] ne.contains(e) ==> block_edge(nb, e, fs, fe) || hit_edge(new, e),
        forall|e: CfgEdge| #[trigger] block_edge(nb, e, fs, fe) ==> ne.contains(e),
        forall|s: u32| #[trigger] is_succ(nb, s, fs, fe) ==> pw.contains(s),
        forall|s: u32| #[trigger] pw.contains(s) ==> is_succ(nb, s, fs, fe),
        runs_into(data, base, fe, new, nb) ==> ne.contains(CfgEdge { from: start, to: nb.end, kind: EdgeKind::Fallthrough }),
        dr == (dr0 || match term_index(nb) { Some(j) => flow_at(nb, j) == (Flow::Jr { rs: 31 }), None => false }),
    ensures
        walk_inv(data, base, fs, fe, new, w + pw, e0 + ne, dr),
{
    reveal(walk_inv);
    lemma_push_keeps(w, start);
    let wp = w.push(start);
    assert(wp[w.len() as int] == start);
    assert forall|i: int| 0 <= i < w.len() implies #[trigger] w[i] == fs || exists|k2: u32|
        #[trigger] old.contains_key(k2) && is_succ(old[k2], w[i], fs, fe) by {
        assert(wp[i] == w[i]);
    }
    lemma_grow(data, base, old, new, start, nb, fs, fe, e0, ne, w, pw, dr0, dr);
    lemma_grow_origin1(data, base, old, new, start, nb, fs, fe, e0, ne, w, pw);
    lemma_grow_origin2(data, base, old, new, start, nb, fs, fe, e0, ne, w, pw);
    lemma_grow_origin3(data, base, old, new, start, nb, fs, fe, e0, ne, w, pw);
}

/// The section's addresses are free of overflow: every word address plus 4 fits.
pub open spec fn section_fits(base_addr: u32, len: int) -> bool {
    base_addr as int + len + 4 <= u32::MAX
}

proof fn lemma_block_push(data: Seq<u8>, base: u32, is_le: bool, start: u32, instrs: Seq<(u32, u32)>)
    requires
        base <= start,
        start - base + 4 * instrs.len() + 4 <= data.len(),
        forall|i: int| 0 <= i < instrs.len() ==> #[trigger] instrs[i] == ((start + 4 * i) as u32, word_at(data, start - base + 4 * i, is_le)),
    ensures
        forall|i: int| 0 <= i < instrs.len() + 1 ==> #[trigger] instrs.push(((start + 4 * instrs.len()) as u32, word_at(data, start - base + 4 * instrs.len(), is_le)))[i] == ((start + 4 * i) as u32, word_at(data, start - base + 4 * i, is_le)),
{
}

/// What [`build_function_cfg`] promises of the CFG `c` it builds for the
/// function `[fs, fe)` of a section loaded at `base`.
pub open spec fn built_cfg(c: FunctionCfg, data: Seq<u8>, base: u32, fs: u32, fe: u32, le: bool) -> bool {
    &&& c.entry == fs
    &&& blocks_ok(data, base, fe, le, c.blocks@)
    &&& forall|i: int| 0 <= i < c.edges@.len() ==> edge_ok(#[trigger] c.edges@[i], c.blocks@, fs, fe)
    &&& c.does_return ==> has_return_block(c.blocks@)
    &&& base <= fs && fs < fe ==> c.blocks@.contains_key(fs)
    &&& forall|k: u32| #[trigger] c.blocks@.contains_key(k) ==> block_shape(data, base, fe, c.blocks@, c.blocks@[k])
    &&& forall|k: u32| #[trigger] c.blocks@.contains_key(k) ==> k == fs || exists|k2: u32|
        #[trigger] c.blocks@.contains_key(k2) && is_succ(c.blocks@[k2], k, fs, fe)
    &&& forall|k: u32| #[trigger] c.blocks@.contains_key(k) && runs_into(data, base, fe, c.blocks@, c.blocks@[k])
        ==> c.edges@.contains(CfgEdge { from: k, to: c.blocks@[k].end, kind: EdgeKind::Fallthrough })
    &&& forall|i: int| 0 <= i < c.edges@.len() ==> c.blocks@.contains_key(#[trigger] c.edges@[i].from) && (
        (c.edges@[i].kind == EdgeKind::Fallthrough || c.edges@[i].kind == EdgeKind::BranchNotTaken)
        ==> c.edges@[i].to == c.blocks@[c.edges@[i].from].end)
    &&& forall|k: u32, s: u32| #![trigger c.blocks@.contains_key(k), is_succ(c.blocks@[k], s, fs, fe)]
        c.blocks@.contains_key(k) && is_succ(c.blocks@[k], s, fs, fe) && base <= s < fe
        ==> c.blocks@.contains_key(s)
    &&& forall|i: int| 0 <= i < c.edges@.len() ==> hit_edge(c.blocks@, #[trigger] c.edges@[i]) || exists|k: u32|
        #[trigger] c.blocks@.contains_key(k) && block_edge(c.blocks@[k], c.edges@[i], fs, fe)
    &&& forall|k: u32, e: CfgEdge| #![trigger c.blocks@.contains_key(k), block_edge(c.blocks@[k], e, fs, fe)]
        c.blocks@.contains_key(k) && block_edge(c.blocks@[k], e, fs, fe) ==> c.edges@.contains(e)
    &&& c.does_return == returns_in(c.blocks@)
}

/// Build the CFG of one function by recursive descent from `func_start`,
/// following direct branch/jump targets inside `[func_start, func_end)` and
/// splitting blocks at control transfers (each transfer keeps its delay slot).
#[verifier::rlimit(100)]
#[verifier::spinoff_prover]
pub fn build_function_cfg(data: &[u8], base_addr: u32, func_start: u32, func_end: u32, is_le: bool) -> (cfg: FunctionCfg)
    requires
        section_fits(base_addr, data.len() as int),
    ensures
        cfg.entry == func_start,
        blocks_ok(data@, base_addr, func_end, is_le, cfg.blocks@),
        forall|i: int| 0 <= i < cfg.edges@.len() ==> edge_ok(#[trigger] cfg.edges@[i], cfg.blocks@, func_start, func_end),
        cfg.does_return ==> has_return_block(cfg.blocks@),
        base_addr <= func_start && func_start < func_end ==> cfg.blocks@.contains_key(func_start),
        forall|k: u32| #[trigger] cfg.blocks@.contains_key(k) ==> block_shape(data@, base_addr, func_end, cfg.blocks@, cfg.blocks@[k]),
        forall|k: u32| #[trigger] cfg.blocks@.contains_key(k) ==> k == func_start || exists|k2: u32|
            #[trigger] cfg.blocks@.contains_key(k2) && is_succ(cfg.blocks@[k2], k, func_start, func_end),
        forall|k: u32| #[trigger] cfg.blocks@.contains_key(k) && runs_into(data@, base_addr, func_end, cfg.blocks@, cfg.blocks@[k])
            ==> cfg.edges@.contains(CfgEdge { from: k, to: cfg.blocks@[k].end, kind: EdgeKind::Fallthrough }),
        forall|i: int| 0 <= i < cfg.edges@.len() ==> cfg.blocks@.contains_key(#[trigger] cfg.edges@[i].from) && (
            (cfg.edges@[i].kind == EdgeKind::Fallthrough || cfg.edges@[i].kind == EdgeKind::BranchNotTaken)
                ==> cfg.edges@[i].to == cfg.blocks@[cfg.edges@[i].from].end),
        forall|k: u32, s: u32| #![trigger cfg.blocks@.contains_key(k), is_succ(cfg.blocks@[k], s, func_start, func_end)]
            cfg.blocks@.contains_key(k) && is_succ(cfg.blocks@[k], s, func_start, func_end) && base_addr <= s < func_end
                ==> cfg.blocks@.contains_key(s),
        forall|i: int| 0 <= i < cfg.edges@.len() ==> hit_edge(cfg.blocks@, #[trigger] cfg.edges@[i]) || exists|k: u32|
            #[trigger] cfg.blocks@.contains_key(k) && block_edge(cfg.blocks@[k], cfg.edges@[i], func_start, func_end),
        forall|k: u32, e: CfgEdge| #![trigger cfg.blocks@.contains_key(k), block_edge(cfg.blocks@[k], e, func_start, func_end)]
            cfg.blocks@.contains_key(k) && block_edge(cfg.blocks@[k], e, func_start, func_end) ==> cfg.edges@.contains(e),
        cfg.does_return == returns_in(cfg.blocks@),
        built_cfg(cfg, data@, base_addr, func_start, func_end, is_le),
{
    let mut blocks: BTreeMap<u32, BasicBlock> = BTreeMap::new();
    let mut edges: Vec<CfgEdge> = Vec::new();
    let mut does_return: bool = false;
    let mut work: Vec<u32> = Vec::new();
    work.push(func_start);
    assert(work@[0] == func_start);
    let mut visited: BTreeSet<u32> = BTreeSet::new();
    let ghost range = Set::<u32>::range(base_addr, func_end);
    let ghost range_len: nat = if base_addr <= func_end { (func_end - base_addr) as nat } else { 0 };
    proof {
        vstd::set_lib::range_set_properties::<u32>(base_addr, func_end);
        reveal(walk_inv);
    }

    while work.len() > 0
        invariant
            section_fits(base_addr, data.len() as int),
            range == Set::<u32>::range(base_addr, func_end),
            range.finite(),
            range.len() == range_len,
            visited@.subset_of(range),
            blocks@.dom() == visited@,
            blocks_ok(data@, base_addr, func_end, is_le, blocks@),
            forall|i: int| 0 <= i < edges@.len() ==> edge_ok(#[trigger] edges@[i], blocks@, func_start, func_end),
            does_return ==> has_return_block(blocks@),
            base_addr <= func_start && func_start < func_end ==> (visited@.contains(func_start) || (work@.len() > 0 && work@[0] == func_start)),
            walk_inv(data@, base_addr, func_start, func_end, blocks@, work@, edges@, does_return),
        decreases range_len - visited@.len(), work.len(),
    {
        let ghost old_work = work@;
        let start: u32 = work.pop().unwrap();
        proof {
            vstd::set_lib::lemma_len_subset(visited@, range);
            assert(old_work == work@.push(start));
        }
        if start < base_addr || start >= func_end {
            proof { lemma_walk_pop(data@, base_addr, func_start, func_end, blocks@, work@, start, edges@, does_return); }
            continue;
        }
        if !visited.insert(start) {
            proof { lemma_walk_pop(data@, base_addr, func_start, func_end, blocks@, work@, start, edges@, does_return); }
            continue;
        }
        let ghost w_popped = work@;
        proof {
            assert(visited@.subset_of(range));
            vstd::set_lib::lemma_len_subset(visited@, range);
        }

        let mut instrs: Vec<(u32, u32)> = Vec::new();
        let mut off: usize = (start - base_addr) as usize;
        let mut block_end: u32 = start;
        let mut term: Option<MipsInstr> = None;
        let mut hit: bool = false;

        loop
            invariant
                section_fits(base_addr, data.len() as int),
                base_addr <= start && start < func_end,
                !blocks@.contains_key(start),
                off == start - base_addr + 4 * instrs@.len(),
                instrs@.len() > 0 ==> off <= data.len(),
                block_end == start + 4 * instrs@.len(),
                block_end < func_end + 4,
                forall|i: int| 0 <= i < instrs@.len() ==> #[trigger] instrs@[i] == (
                    (start + 4 * i) as u32,
                    word_at(data@, start - base_addr + 4 * i, is_le),
                ),
                forall|i: int| 0 <= i < instrs@.len() - 1 ==> !is_control(spec_decode_flow(#[trigger] instrs@[i].1, instrs@[i].0)),
                term is None ==> forall|i: int| 0 <= i < instrs@.len() ==> !is_control(spec_decode_flow(#[trigger] instrs@[i].1, instrs@[i].0)),
                term matches Some(t) ==> {
                    &&& instrs@.len() > 0
                    &&& t.addr == instrs@.last().0 && t.word == instrs@.last().1
                    &&& t.flow == spec_decode_flow(t.word, t.addr)
                    &&& is_control(t.flow)
                },
                hit ==> term is None && instrs@.len() > 0 && blocks@.contains_key(block_end),
            ensures
                hit || term is Some || off + 4 > data.len() || block_end >= func_end,
            decreases data.len() as int - off as int, (if term is Some || hit { 0int } else { 1int }),
        {
            if term.is_some() || hit {
                break;
            }
            if block_end >= func_end {
                break;
            }
            match decode_at(data, off, base_addr, is_le) {
                None => {
                    break;
                },
                Some(insn) => {
                    assert(insn.addr == block_end);
                    if insn.addr != start && blocks.contains_key(&insn.addr) {
                        hit = true;
                        assert(instrs@.len() > 0);
                    } else {
                        proof {
                            lemma_block_push(data@, base_addr, is_le, start, instrs@);
                        }
                        instrs.push((insn.addr, insn.word));
                        block_end = insn.addr + 4;
                        off = off + 4;
                        match insn.flow {
                            Flow::Sequential | Flow::Unknown => {},
                            _ => {
                                term = Some(insn);
                            },
                        }
                    }
                },
            }
        }

        let ghost n_before_ds = instrs@.len();
        match term {
            Some(t) => {
                if block_end < func_end {
                    match decode_at(data, off, base_addr, is_le) {
                        Some(ds) => {
                            proof {
                                lemma_block_push(data@, base_addr, is_le, start, instrs@);
                            }
                            instrs.push((ds.addr, ds.word));
                            block_end = ds.addr + 4;
                            off = off + 4;
                        },
                        None => {},
                    }
                }
                assert(instrs@[n_before_ds - 1] == (t.addr, t.word));
                let block = BasicBlock { start, end: block_end, instrs };
                assert(block_has_flow(block, t.flow)) by {
                    assert(block.instrs@[n_before_ds - 1] == (t.addr, t.word));
                }
                assert(block_wf(data@, base_addr, is_le, block));
                let ghost old_blocks = blocks@;
                blocks.insert(start, block);
                proof {
                    assert forall|i: int| 0 <= i < edges@.len() implies edge_ok(#[trigger] edges@[i], blocks@, func_start, func_end) by {
                        assert(old_blocks.contains_key(edges@[i].from) ==> blocks@[edges@[i].from] == old_blocks[edges@[i].from]);
                    }
                    if does_return {
                        let k = choose|k: u32| #[trigger] old_blocks.contains_key(k) && block_has_flow(old_blocks[k], Flow::Jr { rs: 31 });
                        assert(blocks@.contains_key(k) && blocks@[k] == old_blocks[k]);
                    }
                    assert(blocks@[start] == block);
                }
                let ghost w0 = work@;
                let ghost e0 = edges@;
                let ghost dr0 = does_return;
                proof {
                    assert(block.end == block_end);
                    if block.instrs@.len() == n_before_ds {
                        assert(!next_available(data@, base_addr, func_end, block));
                    }
                    lemma_term_of(block, n_before_ds as int);
                    assert(flow_at(block, n_before_ds - 1) == t.flow);
                }
                let ghost mut ne: Seq<CfgEdge> = Seq::empty();
                let ghost mut pw: Seq<u32> = Seq::empty();
                match t.flow {
                    Flow::CondBranch { target } => {
                        if in_range(target, func_start, func_end) {
                            edges.push(CfgEdge { from: start, to: target, kind: EdgeKind::BranchTaken });
                            work.push(target);
                            proof {
                                ne = seq![CfgEdge { from: start, to: target, kind: EdgeKind::BranchTaken }];
                                pw = seq![target];
                            }
                        }
                        edges.push(CfgEdge { from: start, to: block_end, kind: EdgeKind::BranchNotTaken });
                        work.push(block_end);
                        proof {
                            ne = ne.push(CfgEdge { from: start, to: block_end, kind: EdgeKind::BranchNotTaken });
                            pw = pw.push(block_end);
                        }
                    },
                    Flow::Jump { target } => {
                        if in_range(target, func_start, func_end) {
                            edges.push(CfgEdge { from: start, to: target, kind: EdgeKind::Jump });
                            work.push(target);
                            proof {
                                ne = seq![CfgEdge { from: start, to: target, kind: EdgeKind::Jump }];
                                pw = seq![target];
                            }
                        }
                    },
                    Flow::Call { target } => {
                        edges.push(CfgEdge { from: start, to: target, kind: EdgeKind::Call });
                        edges.push(CfgEdge { from: start, to: block_end, kind: EdgeKind::Fallthrough });
                        work.push(block_end);
                        proof {
                            ne = seq![CfgEdge { from: start, to: target, kind: EdgeKind::Call },
                                CfgEdge { from: start, to: block_end, kind: EdgeKind::Fallthrough }];
                            pw = seq![block_end];
                        }
                    },
                    Flow::Jr { rs } => {
                        if rs == 31 {
                            does_return = true;
                            assert(blocks@.contains_key(start) && block_has_flow(blocks@[start], Flow::Jr { rs: 31 }));
                        }
                    },
                    Flow::Jalr { rs } => {
                        edges.push(CfgEdge { from: start, to: block_end, kind: EdgeKind::Fallthrough });
                        work.push(block_end);
                        proof {
                            ne = seq![CfgEdge { from: start, to: block_end, kind: EdgeKind::Fallthrough }];
                            pw = seq![block_end];
                        }
                    },
                    _ => {},
                }
                proof {
                    assert(edges@ =~= e0 + ne);
                    assert(work@ =~= w0 + pw);
                    assert(forall|e: CfgEdge| #[trigger] ne.contains(e) ==> block_edge(block, e, func_start, func_end));
                    assert forall|e: CfgEdge| #[trigger] block_edge(block, e, func_start, func_end) implies ne.contains(e) by {
                        if ne.len() == 1 { assert(ne[0] == e); } else if ne.len() == 2 { if ne[0] == e {} else { assert(ne[1] == e); } }
                    }
                    assert forall|s2: u32| #[trigger] is_succ(block, s2, func_start, func_end) implies pw.contains(s2) by {
                        if pw.len() == 1 { assert(pw[0] == s2); } else if pw.len() == 2 { if pw[0] == s2 {} else { assert(pw[1] == s2); } }
                    }
                    assert forall|s2: u32| #[trigger] pw.contains(s2) implies is_succ(block, s2, func_start, func_end) by {
                        let i = choose|i: int| 0 <= i < pw.len() && pw[i] == s2;
                    }
                    assert(does_return == (dr0 || flow_at(block, n_before_ds - 1) == (Flow::Jr { rs: 31 })));
                    assert(w0 == w_popped);
                    lemma_walk_grow(data@, base_addr, func_start, func_end, old_blocks, blocks@, start, block, e0, ne, w0, pw, dr0, does_return);
                }
            },
            None => {
                let to: u32 = block_end;
                let block = BasicBlock { start, end: block_end, instrs };
                assert(block_wf(data@, base_addr, is_le, block));
                let ghost old_blocks = blocks@;
                blocks.insert(start, block);
                proof {
                    assert forall|i: int| 0 <= i < edges@.len() implies edge_ok(#[trigger] edges@[i], blocks@, func_start, func_end) by {
                        assert(old_blocks.contains_key(edges@[i].from) ==> blocks@[edges@[i].from] == old_blocks[edges@[i].from]);
                    }
                    if does_return {
                        let k = choose|k: u32| #[trigger] old_blocks.contains_key(k) && block_has_flow(old_blocks[k], Flow::Jr { rs: 31 });
                        assert(blocks@.contains_key(k) && blocks@[k] == old_blocks[k]);
                    }
                }
                let ghost e0 = edges@;
                let ghost mut ne: Seq<CfgEdge> = Seq::empty();
                if hit {
                    edges.push(CfgEdge { from: start, to, kind: EdgeKind::Fallthrough });
                    proof { ne = seq![CfgEdge { from: start, to, kind: EdgeKind::Fallthrough }]; }
                }
                proof {
                    assert(block.end == block_end);
                    lemma_term_none(block);
                    assert(edges@ =~= e0 + ne);
                    assert(work@ =~= work@ + Seq::<u32>::empty());
                    if hit {
                        assert(blocks@.contains_key(start) && blocks@[start].end == block_end && term_index(blocks@[start]) is None);
                        assert(hit_edge(blocks@, ne[0]));
                        assert(ne.contains(ne[0]));
                    }
                    assert(work@ == w_popped);
                    lemma_walk_grow(data@, base_addr, func_start, func_end, old_blocks, blocks@, start, block, e0, ne, work@, Seq::empty(), does_return, does_return);
                }
            },
        }
    }

    proof {
        reveal(walk_inv);
        assert forall|k: u32, s: u32| #![trigger blocks@.contains_key(k), is_succ(blocks@[k], s, func_start, func_end)]
            blocks@.contains_key(k) && is_succ(blocks@[k], s, func_start, func_end) && base_addr <= s < func_end
                implies blocks@.contains_key(s) by {
            if work@.contains(s) {
                let i = choose|i: int| 0 <= i < work@.len() && work@[i] == s;
            }
        }
        assert forall|i: int| 0 <= i < edges@.len() implies blocks@.contains_key(#[trigger] edges@[i].from) && (
            (edges@[i].kind == EdgeKind::Fallthrough || edges@[i].kind == EdgeKind::BranchNotTaken)
                ==> edges@[i].to == blocks@[edges@[i].from].end) by {
            if !hit_edge(blocks@, edges@[i]) {
                let k = choose|k: u32| #[trigger] blocks@.contains_key(k) && block_edge(blocks@[k], edges@[i], func_start, func_end);
                assert(blocks@[k].start == k);
            }
        }
    }
    FunctionCfg { entry: func_start, blocks, edges, does_return }
}


// ---------------------------------------------------------------------------
// Cross-reference index
// ---------------------------------------------------------------------------

/// How an address is referenced.
#[derive(Debug, Clone, Copy, PartialEq, Eq, Structural)]
pub enum XrefKind {
    /// Direct call (JAL).
    Call,
    /// Unconditional jump (J).
    Jump,
    /// Conditional branch.
    Branch,
    /// Data reference.
    Data,
}

/// A single cross-reference: `from` references `to` with kind `kind`.
#[derive(Debug, Clone, Copy, PartialEq, Eq, Structural)]
pub struct Xref {
    /// Address of the referencing instruction.
    pub from: u32,
    /// Address being referenced.
    pub to: u32,
    pub kind: XrefKind,
}

/// For each referenced address, the references pointing at it, in the order added.
#[derive(Debug, Clone)]
pub struct XrefIndex {
    pub by_target: BTreeMap<u32, Vec<Xref>>,
}

impl View for XrefIndex {
    type V = Map<u32, Seq<Xref>>;

    open spec fn view(&self) -> Map<u32, Seq<Xref>> {
        Map::new(|k: u32| self.by_target@.contains_key(k), |k: u32| self.by_target@[k]@)
    }
}

/// The index after recording one more reference.
pub open spec fn index_add(m: Map<u32, Seq<Xref>>, x: Xref) -> Map<u32, Seq<Xref>> {
    m.insert(x.to, (if m.contains_key(x.to) { m[x.to] } else { Seq::empty() }).push(x))
}

/// The index holding exactly the references `xs`, recorded in order.
pub open spec fn index_of(xs: Seq<Xref>) -> Map<u32, Seq<Xref>>
    decreases xs.len(),
{
    if xs.len() == 0 {
        Map::empty()
    } else {
        index_add(index_of(xs.drop_last()), xs.last())
    }
}

impl XrefIndex {
    /// An empty index.
    pub fn new() -> (r: XrefIndex)
        ensures
            r@ == Map::<u32, Seq<Xref>>::empty(),
    {
        let r = XrefIndex { by_target: BTreeMap::new() };
        assert(r@ =~= Map::<u32, Seq<Xref>>::empty());
        r
    }

    /// Record that `from` references `to` with kind `kind`.
    pub fn add(&mut self, from: u32, to: u32, kind: XrefKind)
        ensures
            final(self)@ == index_add(old(self)@, Xref { from, to, kind }),
    {
        let mut v: Vec<Xref> = match self.by_target.remove(&to) {
            Some(v) => v,
            None => Vec::new(),
        };
        v.push(Xref { from, to, kind });
        self.by_target.insert(to, v);
        assert(self@ =~= index_add(old(self)@, Xref { from, to, kind }));
    }

    /// All references to `addr` (empty when there are none).
    pub fn refs_to(&self, addr: u32) -> (r: &[Xref])
        ensures
            r@ == (if self@.contains_key(addr) { self@[addr] } else { Seq::<Xref>::empty() }),
    {
        match self.by_target.get(&addr) {
            Some(v) => v.as_slice(),
            None => &[],
        }
    }

    /// Number of distinct referenced addresses.
    pub fn len(&self) -> (n: usize)
        ensures
            n == self@.dom().len(),
    {
        assert(self@.dom() =~= self.by_target@.dom());
        self.by_target.len()
    }

    /// Whether no address is referenced.
    pub fn is_empty(&self) -> (b: bool)
        ensures
            b == (self@.dom().len() == 0),
    {
        assert(self@.dom() =~= self.by_target@.dom());
        self.by_target.is_empty()
    }
}

/// The reference an edge contributes: calls, jumps and branches count,
/// fall-throughs do not.
pub open spec fn edge_xref(e: CfgEdge) -> Option<Xref> {
    match e.kind {
        EdgeKind::Call => Some(Xref { from: e.from, to: e.to, kind: XrefKind::Call }),
        EdgeKind::Jump => Some(Xref { from: e.from, to: e.to, kind: XrefKind::Jump }),
        EdgeKind::BranchTaken | EdgeKind::BranchNotTaken => Some(Xref { from: e.from, to: e.to, kind: XrefKind::Branch }),
        EdgeKind::Fallthrough => None,
    }
}

/// The references contributed by a sequence of edges, in order.
pub open spec fn edges_xrefs(es: Seq<CfgEdge>) -> Seq<Xref>
    decreases es.len(),
{
    if es.len() == 0 {
        Seq::empty()
    } else {
        edges_xrefs(es.drop_last()) + match edge_xref(es.last()) {
            Some(x) => seq![x],
            None => Seq::empty(),
        }
    }
}

/// The references contributed by a sequence of CFGs, in order.
pub open spec fn cfgs_xrefs(cs: Seq<FunctionCfg>) -> Seq<Xref>
    decreases cs.len(),
{
    if cs.len() == 0 {
        Seq::empty()
    } else {
        cfgs_xrefs(cs.drop_last()) + edges_xrefs(cs.last().edges@)
    }
}

/// Build the global cross-reference index of a set of CFGs: every call, jump
/// and branch edge becomes a reference to its target.
pub fn build_xref_index(cfgs: &[FunctionCfg]) -> (idx: XrefIndex)
    ensures
        idx@ == index_of(cfgs_xrefs(cfgs@)),
{
    let mut idx = XrefIndex::new();
    let ghost mut xs: Seq<Xref> = Seq::empty();
    let mut i: usize = 0;
    while i < cfgs.len()
        invariant
            0 <= i <= cfgs.len(),
            xs == cfgs_xrefs(cfgs@.subrange(0, i as int)),
            idx@ == index_of(xs),
        decreases cfgs.len() - i,
    {
        let cfg = &cfgs[i];
        let ghost xs0 = xs;
        let mut j: usize = 0;
        while j < cfg.edges.len()
            invariant
                0 <= j <= cfg.edges.len(),
                xs == xs0 + edges_xrefs(cfg.edges@.subrange(0, j as int)),
                idx@ == index_of(xs),
            decreases cfg.edges.len() - j,
        {
            let e = cfg.edges[j];
            assert(cfg.edges@.subrange(0, j + 1).drop_last() =~= cfg.edges@.subrange(0, j as int));
            let k = match e.kind {
                EdgeKind::Call => Some(XrefKind::Call),
                EdgeKind::Jump => Some(XrefKind::Jump),
                EdgeKind::BranchTaken | EdgeKind::BranchNotTaken => Some(XrefKind::Branch),
                EdgeKind::Fallthrough => None,
            };
            match k {
                Some(kind) => {
                    idx.add(e.from, e.to, kind);
                    proof {
                        let x = Xref { from: e.from, to: e.to, kind };
                        assert(xs.push(x).drop_last() =~= xs);
                        xs = xs.push(x);
                    }
                },
                None => {},
            }
            assert(xs =~= xs0 + edges_xrefs(cfg.edges@.subrange(0, j + 1)));
            j = j + 1;
        }
        assert(cfg.edges@.subrange(0, cfg.edges@.len() as int) =~= cfg.edges@);
        assert(cfgs@.subrange(0, i + 1).drop_last() =~= cfgs@.subrange(0, i as int));
        i = i + 1;
    }
    assert(cfgs@.subrange(0, cfgs@.len() as int) =~= cfgs@);
    idx
}

/// The predicate "references `t`".
pub open spec fn refers_to(t: u32) -> spec_fn(Xref) -> bool {
    |x: Xref| x.to == t
}

/// The index lists, for each target, exactly the references to it in the
/// order they were recorded, and holds no other addresses.
#[verifier::rlimit(50)]
#[verifier::spinoff_prover]
pub proof fn index_of_is_grouping(xs: Seq<Xref>, t: u32)
    ensures
        index_of(xs).contains_key(t) <==> exists|i: int| 0 <= i < xs.len() && xs[i].to == t,
        index_of(xs).contains_key(t) ==> index_of(xs)[t] == xs.filter(refers_to(t)),
    decreases xs.len(),
{
    if xs.len() > 0 {
        let ys = xs.drop_last();
        let p = refers_to(t);
        index_of_is_grouping(ys, t);
        assert(xs =~= ys + seq![xs.last()]);
        Seq::filter_distributes_over_add(ys, seq![xs.last()], p);
        assert(seq![xs.last()].filter(p) =~= (if xs.last().to == t { seq![xs.last()] } else { Seq::<Xref>::empty() })) by {
            reveal_with_fuel(Seq::filter, 2);
            assert(seq![xs.last()].drop_last() =~= Seq::<Xref>::empty());
        }
        if !index_of(ys).contains_key(t) {
            if ys.filter(p).len() > 0 {
                let x0 = ys.filter(p)[0];
                ys.lemma_filter_pred(p, 0);
                assert(ys.filter(p).contains(x0));
                ys.lemma_filter_contains_rev(p, x0);
                let k = choose|k: int| 0 <= k < ys.len() && ys[k] == x0;
                assert(ys[k].to == t);
            }
            assert(ys.filter(p) =~= Seq::<Xref>::empty());
        }
        if exists|i: int| 0 <= i < xs.len() && xs[i].to == t {
            let i = choose|i: int| 0 <= i < xs.len() && xs[i].to == t;
            if i < ys.len() {
                assert(ys[i].to == t);
            }
        }
        if exists|i: int| 0 <= i < ys.len() && ys[i].to == t {
            let i = choose|i: int| 0 <= i < ys.len() && ys[i].to == t;
            assert(xs[i].to == t);
        }
    }
}

/// Edges contribute no data references.
proof fn lemma_edges_no_data(es: Seq<CfgEdge>)
    ensures
        forall|i: int| 0 <= i < edges_xrefs(es).len() ==> edges_xrefs(es)[i].kind != XrefKind::Data,
    decreases es.len(),
{
    if es.len() > 0 {
        lemma_edges_no_data(es.drop_last());
    }
}

/// CFGs contribute no data references.
proof fn lemma_cfgs_no_data(cs: Seq<FunctionCfg>)
    ensures
        forall|i: int| 0 <= i < cfgs_xrefs(cs).len() ==> cfgs_xrefs(cs)[i].kind != XrefKind::Data,
    decreases cs.len(),
{
    if cs.len() > 0 {
        lemma_cfgs_no_data(cs.drop_last());
        lemma_edges_no_data(cs.last().edges@);
    }
}

/// For every address, the index built from a set of CFGs lists exactly the
/// call, jump and branch edges that end there, in the order the CFGs and their
/// edges come, and an address nothing refers to has an empty list. The index
/// holds no data references, and that of no CFGs is empty.
pub proof fn xref_index_lists_each_target(cfgs: Seq<FunctionCfg>, t: u32)
    ensures
        ({
            let m = index_of(cfgs_xrefs(cfgs));
            (if m.contains_key(t) { m[t] } else { Seq::<Xref>::empty() }) == cfgs_xrefs(cfgs).filter(refers_to(t))
        }),
        forall|i: int| 0 <= i < cfgs_xrefs(cfgs).len() ==> cfgs_xrefs(cfgs)[i].kind != XrefKind::Data,
        cfgs.len() == 0 ==> index_of(cfgs_xrefs(cfgs)).dom().len() == 0,
{
    lemma_cfgs_no_data(cfgs);
    if cfgs.len() == 0 {
        assert(index_of(cfgs_xrefs(cfgs)).dom() =~= Set::<u32>::empty());
    }
    let xs = cfgs_xrefs(cfgs);
    let p = refers_to(t);
    index_of_is_grouping(xs, t);
    if !index_of(xs).contains_key(t) {
        if xs.filter(p).len() > 0 {
            let x0 = xs.filter(p)[0];
            xs.lemma_filter_pred(p, 0);
            assert(xs.filter(p).contains(x0));
            xs.lemma_filter_contains_rev(p, x0);
            let k = choose|k: int| 0 <= k < xs.len() && xs[k] == x0;
            assert(xs[k].to == t);
        }
        assert(xs.filter(p) =~= Seq::<Xref>::empty());
    }
}

// ---------------------------------------------------------------------------
// Indirect-call resolution
// ---------------------------------------------------------------------------

/// A resolved indirect call.
#[derive(Debug, Clone)]
pub struct IndirectCall {
    pub callsite: u32,
    pub target: u32,
    /// Resolved name (from relocations / imports).
    pub name: Option<String>,
}

/// `lw $t9, off($gp)`.
pub open spec fn spec_is_lw_t9_gp(w: u32) -> bool {
    (w >> 26u32) & 0x3Fu32 == 0x23 && (w >> 21u32) & 0x1Fu32 == 28 && (w >> 16u32) & 0x1Fu32 == 25
}

/// `jalr $t9` (any destination register).
pub open spec fn spec_is_jalr_t9(w: u32) -> bool {
    (w >> 26u32) & 0x3Fu32 == 0 && (w >> 21u32) & 0x1Fu32 == 25 && w & 0x3Fu32 == 9
}

/// Whether `w` is `lw $t9, off($gp)`.
pub fn is_lw_t9_gp(w: u32) -> (b: bool)
    ensures
        b == spec_is_lw_t9_gp(w),
{
    let op: u32 = (w >> 26) & 0x3F;
    let rs: u32 = (w >> 21) & 0x1F;
    let rt: u32 = (w >> 16) & 0x1F;
    op == 0x23 && rs == 28 && rt == 25
}

/// Whether `w` is `jalr $t9`.
pub fn is_jalr_t9(w: u32) -> (b: bool)
    ensures
        b == spec_is_jalr_t9(w),
{
    let op: u32 = (w >> 26) & 0x3F;
    let rs: u32 = (w >> 21) & 0x1F;
    let funct: u32 = w & 0x3F;
    op == 0x00 && rs == 25 && funct == 0x09
}

/// The sign-extended 16-bit offset of a load, as a 32-bit slot key.
pub open spec fn slot_key(w: u32) -> u32 {
    let imm = w & 0xFFFFu32;
    if imm < 0x8000 { imm } else { (imm as int + 0xFFFF_0000) as u32 }
}

/// Instructions `i` and `i + 1` of `b` form a `lw $t9, off($gp); jalr $t9`
/// pair whose slot is named in `slots`.
pub open spec fn thunk_at(b: BasicBlock, i: int, slots: Map<u32, String>) -> bool {
    &&& 0 <= i && i + 1 < b.instrs@.len()
    &&& spec_is_lw_t9_gp(b.instrs@[i].1)
    &&& spec_is_jalr_t9(b.instrs@[i + 1].1)
    &&& slots.contains_key(slot_key(b.instrs@[i].1))
}

/// The call a matched pair resolves to.
pub open spec fn thunk_call(b: BasicBlock, i: int, slots: Map<u32, String>) -> (u32, u32, Option<Seq<char>>) {
    (b.instrs@[i + 1].0, 0u32, Some(slots[slot_key(b.instrs@[i].1)]@))
}

/// The plain-value form of a resolved call.
pub open spec fn call_view(c: IndirectCall) -> (u32, u32, Option<Seq<char>>) {
    (c.callsite, c.target, match c.name { Some(n) => Some(n@), None => None })
}

/// `v` is the call of some matched thunk pair of some block.
pub open spec fn is_thunk_call(blocks: Map<u32, BasicBlock>, slots: Map<u32, String>, v: (u32, u32, Option<Seq<char>>)) -> bool {
    exists|k: u32, i: int| blocks.contains_key(k) && #[trigger] thunk_at(blocks[k], i, slots) && v == thunk_call(blocks[k], i, slots)
}

/// The calls of the matched pairs among the first `n` instructions of `b`, in order.
pub open spec fn block_thunks(b: BasicBlock, slots: Map<u32, String>, n: int) -> Seq<(u32, u32, Option<Seq<char>>)>
    decreases n,
{
    if n <= 0 {
        Seq::empty()
    } else {
        block_thunks(b, slots, n - 1) + if thunk_at(b, n - 1, slots) { seq![thunk_call(b, n - 1, slots)] } else { Seq::empty() }
    }
}

/// The calls of the matched pairs of the blocks keyed `ks`, block by block.
pub open spec fn blocks_thunks(ks: Seq<u32>, blocks: Map<u32, BasicBlock>, slots: Map<u32, String>) -> Seq<(u32, u32, Option<Seq<char>>)>
    decreases ks.len(),
{
    if ks.len() == 0 {
        Seq::empty()
    } else {
        blocks_thunks(ks.drop_last(), blocks, slots) + block_thunks(blocks[ks.last()], slots, blocks[ks.last()].instrs@.len() as int)
    }
}

/// `v` is among the resolved calls.
pub open spec fn listed(out: Seq<IndirectCall>, v: (u32, u32, Option<Seq<char>>)) -> bool {
    exists|n: int| 0 <= n < out.len() && call_view(#[trigger] out[n]) == v
}

/// Resolve `lw $t9, off($gp); jalr $t9` import thunks: each such adjacent pair
/// in a block whose sign-extended offset names an entry of `import_slots`
/// yields a call at the `jalr` with that name (target unknown, 0). Pairs whose
/// slot is not in the table are skipped.
pub fn resolve_indirect_calls(
    cfg: &FunctionCfg,
    data: &[u8],
    base_addr: u32,
    is_le: bool,
    import_slots: &BTreeMap<u32, String>,
) -> (out: Vec<IndirectCall>)
    ensures
        forall|n: int| 0 <= n < out@.len() ==> is_thunk_call(cfg.blocks@, import_slots@, call_view(#[trigger] out@[n])),
        forall|k: u32, i: int| cfg.blocks@.contains_key(k) && #[trigger] thunk_at(cfg.blocks@[k], i, import_slots@)
            ==> listed(out@, thunk_call(cfg.blocks@[k], i, import_slots@)),
        forall|ks: Seq<u32>| crate::decomp::sorted_dom(ks, cfg.blocks@.dom()) ==> out@.map_values(|c: IndirectCall| call_view(c))
            == blocks_thunks(ks, cfg.blocks@, import_slots@),
{
    let mut out: Vec<IndirectCall> = Vec::new();
    let ghost m = cfg.blocks@;
    let ghost slots = import_slots@;
    let ghost keys = cfg.blocks.iter().remaining().map_values(|kv: (&u32, &BasicBlock)| *kv.0);
    proof {
        let v = cfg.blocks.iter().remaining();
        assert forall|k: u32| #[trigger] m.dom().contains(k) implies keys.contains(k) by {
            let q2 = choose|q2: int| 0 <= q2 < v.len() && v[q2] == (&k, &m[k]);
            assert(keys[q2] == k);
        }
        assert forall|i: int| 0 <= i < keys.len() implies m.dom().contains(#[trigger] keys[i]) by {
            assert(m.contains_key(*v[i].0));
        }
    }
    for entry in it: cfg.blocks.iter()
        invariant
            m == cfg.blocks@,
            slots == import_slots@,
            keys == it.seq().map_values(|kv: (&u32, &BasicBlock)| *kv.0),
            vstd::std_specs::btree::increasing_seq(keys),
            forall|i: int| 0 <= i < keys.len() ==> m.dom().contains(#[trigger] keys[i]),
            forall|k: u32| #[trigger] m.dom().contains(k) ==> keys.contains(k),
            out@.map_values(|c: IndirectCall| call_view(c)) == blocks_thunks(keys.take(it.index()), m, slots),
            it.seq().len() == m.dom().len(),
            forall|q: int| 0 <= q < it.seq().len() ==> #[trigger] m.contains_key(*it.seq()[q].0) && m[*it.seq()[q].0] == *it.seq()[q].1,
            forall|k: u32| #[trigger] m.contains_key(k) ==> it.seq().contains((&k, &m[k])),
            forall|n: int| 0 <= n < out@.len() ==> is_thunk_call(m, slots, call_view(#[trigger] out@[n])),
            forall|q: int, i: int| 0 <= q < it.index() && #[trigger] thunk_at(*it.seq()[q].1, i, slots)
                ==> listed(out@, thunk_call(*it.seq()[q].1, i, slots)),
            it.index() == it.seq().len() ==> forall|k: u32, i: int| m.contains_key(k) && #[trigger] thunk_at(m[k], i, slots)
                ==> listed(out@, thunk_call(m[k], i, slots)),
    {
        let ghost cur = entry;
        assert(cur == it.seq()[it.index()]);
        let (key, block) = entry;
        let ghost out0 = out@;
        let ghost q = it.index();
        assert(keys[q] == *key);
        assert(keys.take(q + 1).drop_last() =~= keys.take(q));
        let instrs = &block.instrs;
        let mut i: usize = 0;
        while instrs.len() >= 2 && i < instrs.len() - 1
            invariant
                i <= instrs.len(),
                out@.map_values(|c: IndirectCall| call_view(c)) == out0.map_values(|c: IndirectCall| call_view(c))
                    + block_thunks(*block, slots, i as int),
                m.contains_key(*key) && m[*key] == *block,
                slots == import_slots@,
                instrs == &block.instrs,
                out0.len() <= out@.len(),
                forall|n: int| 0 <= n < out0.len() ==> out@[n] == out0[n],
                forall|n: int| 0 <= n < out@.len() ==> is_thunk_call(m, slots, call_view(#[trigger] out@[n])),
                forall|i2: int| 0 <= i2 < i && #[trigger] thunk_at(*block, i2, slots) ==> listed(out@, thunk_call(*block, i2, slots)),
            decreases instrs.len() - i,
        {
            let (_a0, w0) = instrs[i];
            let (a1, w1) = instrs[i + 1];
            let ghost out1 = out@;
            if is_lw_t9_gp(w0) && is_jalr_t9(w1) {
                let imm: u32 = w0 & 0xFFFF;
                assert(w0 & 0xFFFFu32 <= 0xFFFFu32) by (bit_vector);
                let key16: u32 = if imm < 0x8000 { imm } else { imm + 0xFFFF_0000 };
                match import_slots.get(&key16) {
                    Some(name) => {
                        out.push(IndirectCall { callsite: a1, target: 0, name: Some(name.clone()) });
                        proof {
                            assert(out@.map_values(|c: IndirectCall| call_view(c)) =~= out1.map_values(|c: IndirectCall| call_view(c))
                                .push(call_view(out@[out@.len() - 1])));
                            assert(thunk_at(m[*key], i as int, slots));
                            assert(call_view(out@[out@.len() - 1]) == thunk_call(*block, i as int, slots));
                            assert forall|n: int| 0 <= n < out@.len() implies is_thunk_call(m, slots, call_view(#[trigger] out@[n])) by {
                                if n < out@.len() - 1 {
                                    assert(out@[n] == out1[n]);
                                }
                            }
                            assert forall|i2: int| 0 <= i2 < i + 1 && #[trigger] thunk_at(*block, i2, slots)
                                implies listed(out@, thunk_call(*block, i2, slots)) by {
                                if i2 < i {
                                    let n = choose|n: int| 0 <= n < out1.len() && call_view(#[trigger] out1[n]) == thunk_call(*block, i2, slots);
                                    assert(out@[n] == out1[n]);
                                } else {
                                    assert(call_view(out@[out@.len() - 1]) == thunk_call(*block, i2, slots));
                                }
                            }
                        }
                    },
                    None => {
                        assert(!thunk_at(*block, i as int, slots));
                    },
                }
            } else {
                assert(!thunk_at(*block, i as int, slots));
            }
            i = i + 1;
        }
        proof {
            let n = block.instrs@.len() as int;
            if n >= 2 {
                assert(!thunk_at(*block, n - 1, slots));
                assert(block_thunks(*block, slots, n) == block_thunks(*block, slots, n - 1));
            } else if n == 1 {
                assert(!thunk_at(*block, 0, slots));
                assert(block_thunks(*block, slots, 1) == block_thunks(*block, slots, 0));
            }
            assert(m[keys.take(q + 1).last()] == *block);
            assert(out@.map_values(|c: IndirectCall| call_view(c)) == blocks_thunks(keys.take(q + 1), m, slots));
            assert forall|q2: int, i2: int| 0 <= q2 < it.index() + 1 && #[trigger] thunk_at(*it.seq()[q2].1, i2, slots)
                implies listed(out@, thunk_call(*it.seq()[q2].1, i2, slots)) by {
                if q2 < it.index() {
                    let n = choose|n: int| 0 <= n < out0.len() && call_view(#[trigger] out0[n]) == thunk_call(*it.seq()[q2].1, i2, slots);
                    assert(out@[n] == out0[n]);
                } else {
                    assert(*it.seq()[q2].1 == *block);
                }
            }
            assert forall|k: u32, i2: int| it.index() + 1 == it.seq().len() && m.contains_key(k) && #[trigger] thunk_at(m[k], i2, slots)
                implies listed(out@, thunk_call(m[k], i2, slots)) by {
                let q2 = choose|q2: int| 0 <= q2 < it.seq().len() && it.seq()[q2] == (&k, &m[k]);
                assert(thunk_at(*it.seq()[q2].1, i2, slots));
            }
        }
    }
    proof {
        assert(keys.take(keys.len() as int) =~= keys);
        assert forall|ks: Seq<u32>| crate::decomp::sorted_dom(ks, m.dom()) implies out@.map_values(|c: IndirectCall| call_view(c))
            == blocks_thunks(ks, m, slots) by {
            crate::order::lemma_increasing_u32(keys);
            crate::decomp::lemma_sorted_dom_unique(ks, keys, m.dom());
        }
    }
    let _ = (base_addr, is_le, data);
    out
}

/// Build the CFG of every `(start, end_exclusive)` function range, in order.
pub fn build_all_cfgs(data: &[u8], base_addr: u32, functions: &[(u32, u32)], is_le: bool) -> (cfgs: Vec<FunctionCfg>)
    requires
        section_fits(base_addr, data.len() as int),
    ensures
        cfgs.len() == functions.len(),
        forall|i: int| 0 <= i < cfgs.len() ==> {
            let c = #[trigger] cfgs@[i];
            &&& c.entry == functions@[i].0
            &&& blocks_ok(data@, base_addr, functions@[i].1, is_le, c.blocks@)
            &&& (forall|j: int| 0 <= j < c.edges@.len() ==> edge_ok(#[trigger] c.edges@[j], c.blocks@, functions@[i].0, functions@[i].1))
            &&& (c.does_return ==> has_return_block(c.blocks@))
        },
{
    let mut cfgs: Vec<FunctionCfg> = Vec::new();
    let mut i: usize = 0;
    while i < functions.len()
        invariant
            section_fits(base_addr, data.len() as int),
            0 <= i <= functions.len(),
            cfgs.len() == i,
            forall|k: int| 0 <= k < i ==> {
                let c = #[trigger] cfgs@[k];
                &&& c.entry == functions@[k].0
                &&& blocks_ok(data@, base_addr, functions@[k].1, is_le, c.blocks@)
                &&& (forall|j: int| 0 <= j < c.edges@.len() ==> edge_ok(#[trigger] c.edges@[j], c.blocks@, functions@[k].0, functions@[k].1))
                &&& (c.does_return ==> has_return_block(c.blocks@))
            },
        decreases functions.len() - i,
    {
        let (start, end) = functions[i];
        cfgs.push(build_function_cfg(data, base_addr, start, end, is_le));
        i = i + 1;
    }
    cfgs
}

} // verus!
