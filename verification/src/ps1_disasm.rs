//! R3000A (MIPS I) disassembler: decodes big-endian PS1 code into
//! [`DisasmLine`]s (mnemonic, operand strings, optional note).
//!
//! Unknown words are emitted as `.word` with a note. Load/store operands whose
//! immediate, taken as an absolute address, lies in a device register window
//! (and branch targets in such a window) carry a memory-region note.

use vstd::prelude::*;
use crate::ps1_memory_map::{classify_address, spec_classify, MemoryRegion};
use crate::text::{dec_int, dec_nat, dec_string, hex8_0x, hex8_string, hex_0x, hex_fixed, hex_string, owned, push_char, push_dec_u64, push_hex_fixed, push_str};

verus! {

/// A single decoded instruction line.
#[derive(Clone, Debug)]
pub struct DisasmLine {
    /// Byte offset within the input slice.
    pub offset: u32,
    /// Absolute address (`base_addr + offset`).
    pub address: u32,
    /// The raw 32-bit instruction word.
    pub raw_word: u32,
    /// Mnemonic, e.g. `add`, `lw`, `beq`.
    pub mnemonic: String,
    /// Operands as separate strings.
    pub operands: Vec<String>,
    /// Optional annotation.
    pub note: Option<String>,
}

/// A decoded instruction as plain text values: mnemonic, operands, note.
pub type Decoded = (Seq<char>, Seq<Seq<char>>, Option<Seq<char>>);

/// A decoded instruction as the exec triple the decoder returns.
pub type DecodedExec = (String, Vec<String>, Option<String>);

// ------------------------------------------------------------------------
// Instruction fields
// ------------------------------------------------------------------------

pub open spec fn op_of(w: u32) -> u32 { (w >> 26u32) & 0x3Fu32 }
pub open spec fn rs_of(w: u32) -> u32 { (w >> 21u32) & 0x1Fu32 }
pub open spec fn rt_of(w: u32) -> u32 { (w >> 16u32) & 0x1Fu32 }
pub open spec fn rd_of(w: u32) -> u32 { (w >> 11u32) & 0x1Fu32 }
pub open spec fn shamt_of(w: u32) -> u32 { (w >> 6u32) & 0x1Fu32 }
pub open spec fn funct_of(w: u32) -> u32 { w & 0x3Fu32 }
pub open spec fn imm_of(w: u32) -> u32 { w & 0xFFFFu32 }

/// The sign-extended 16-bit immediate.
pub open spec fn simm_of(w: u32) -> int {
    let i = imm_of(w);
    if i < 0x8000 { i as int } else { i as int - 0x10000 }
}

/// PC-relative branch target: `addr + 4 + simm * 4`, modulo 2^32.
pub open spec fn branch_target_of(w: u32, addr: u32) -> u32 {
    (addr as int + 4 + simm_of(w) * 4) as u32
}

/// J/JAL target: the top four bits of `addr + 4` joined with the 26-bit field shifted left by 2.
pub open spec fn jump_target_of(w: u32, addr: u32) -> u32 {
    (((addr as int + 4) as u32) & 0xF000_0000u32) | ((w & 0x03FF_FFFFu32) << 2u32)
}

pub proof fn lemma_fields_bounded(w: u32)
    ensures
        op_of(w) < 64, rs_of(w) < 32, rt_of(w) < 32, rd_of(w) < 32, shamt_of(w) < 32,
        funct_of(w) < 64, imm_of(w) < 65536,
{
    assert((w >> 26u32) & 0x3Fu32 < 64) by (bit_vector);
    assert((w >> 21u32) & 0x1Fu32 < 32) by (bit_vector);
    assert((w >> 16u32) & 0x1Fu32 < 32) by (bit_vector);
    assert((w >> 11u32) & 0x1Fu32 < 32) by (bit_vector);
    assert((w >> 6u32) & 0x1Fu32 < 32) by (bit_vector);
    assert(w & 0x3Fu32 < 64) by (bit_vector);
    assert(w & 0xFFFFu32 < 65536) by (bit_vector);
}

/// The sign-extended immediate of `w`.
pub fn simm(w: u32) -> (r: i32)
    ensures
        r == simm_of(w),
{
    let i: u32 = w & 0xFFFF;
    proof { lemma_fields_bounded(w); }
    if i < 0x8000 { i as i32 } else { i as i32 - 0x10000 }
}

/// The branch target of `w` at `addr`.
pub fn branch_target(w: u32, addr: u32) -> (r: u32)
    ensures
        r == branch_target_of(w, addr),
{
    let s: i32 = simm(w);
    (addr as i64 + 4 + (s as i64) * 4) as u32
}

/// The J/JAL target of `w` at `addr`.
pub fn jump_target(w: u32, addr: u32) -> (r: u32)
    requires
        addr + 4 <= u32::MAX,
    ensures
        r == jump_target_of(w, addr),
{
    ((addr + 4) & 0xF000_0000) | ((w & 0x03FF_FFFF) << 2)
}

// ------------------------------------------------------------------------
// Register names
// ------------------------------------------------------------------------

/// The ABI name of general-purpose register `i` (with a `$` prefix).
pub open spec fn reg_str(i: int) -> &'static str {
    if i == 0 { "$zero" } else if i == 1 { "$at" } else if i == 2 { "$v0" } else if i == 3 { "$v1" }
    else if i == 4 { "$a0" } else if i == 5 { "$a1" } else if i == 6 { "$a2" } else if i == 7 { "$a3" }
    else if i == 8 { "$t0" } else if i == 9 { "$t1" } else if i == 10 { "$t2" } else if i == 11 { "$t3" }
    else if i == 12 { "$t4" } else if i == 13 { "$t5" } else if i == 14 { "$t6" } else if i == 15 { "$t7" }
    else if i == 16 { "$s0" } else if i == 17 { "$s1" } else if i == 18 { "$s2" } else if i == 19 { "$s3" }
    else if i == 20 { "$s4" } else if i == 21 { "$s5" } else if i == 22 { "$s6" } else if i == 23 { "$s7" }
    else if i == 24 { "$t8" } else if i == 25 { "$t9" } else if i == 26 { "$k0" } else if i == 27 { "$k1" }
    else if i == 28 { "$gp" } else if i == 29 { "$sp" } else if i == 30 { "$fp" } else { "$ra" }
}

/// The MIPS o32 names of the 32 general registers, by number.
pub proof fn register_names()
    ensures
        reg_name(0) == "$zero"@,
        reg_name(1) == "$at"@,
        reg_name(2) == "$v0"@,
        reg_name(3) == "$v1"@,
        reg_name(4) == "$a0"@,
        reg_name(5) == "$a1"@,
        reg_name(6) == "$a2"@,
        reg_name(7) == "$a3"@,
        reg_name(8) == "$t0"@,
        reg_name(9) == "$t1"@,
        reg_name(10) == "$t2"@,
        reg_name(11) == "$t3"@,
        reg_name(12) == "$t4"@,
        reg_name(13) == "$t5"@,
        reg_name(14) == "$t6"@,
        reg_name(15) == "$t7"@,
        reg_name(16) == "$s0"@,
        reg_name(17) == "$s1"@,
        reg_name(18) == "$s2"@,
        reg_name(19) == "$s3"@,
        reg_name(20) == "$s4"@,
        reg_name(21) == "$s5"@,
        reg_name(22) == "$s6"@,
        reg_name(23) == "$s7"@,
        reg_name(24) == "$t8"@,
        reg_name(25) == "$t9"@,
        reg_name(26) == "$k0"@,
        reg_name(27) == "$k1"@,
        reg_name(28) == "$gp"@,
        reg_name(29) == "$sp"@,
        reg_name(30) == "$fp"@,
        reg_name(31) == "$ra"@,
{
}

/// The register name as text.
pub open spec fn reg_name(i: int) -> Seq<char> {
    reg_str(i)@
}

fn reg_static(i: u32) -> (s: &'static str)
    requires
        i < 32,
    ensures
        s == reg_str(i as int),
{
    if i == 0 { "$zero" } else if i == 1 { "$at" } else if i == 2 { "$v0" } else if i == 3 { "$v1" }
    else if i == 4 { "$a0" } else if i == 5 { "$a1" } else if i == 6 { "$a2" } else if i == 7 { "$a3" }
    else if i == 8 { "$t0" } else if i == 9 { "$t1" } else if i == 10 { "$t2" } else if i == 11 { "$t3" }
    else if i == 12 { "$t4" } else if i == 13 { "$t5" } else if i == 14 { "$t6" } else if i == 15 { "$t7" }
    else if i == 16 { "$s0" } else if i == 17 { "$s1" } else if i == 18 { "$s2" } else if i == 19 { "$s3" }
    else if i == 20 { "$s4" } else if i == 21 { "$s5" } else if i == 22 { "$s6" } else if i == 23 { "$s7" }
    else if i == 24 { "$t8" } else if i == 25 { "$t9" } else if i == 26 { "$k0" } else if i == 27 { "$k1" }
    else if i == 28 { "$gp" } else if i == 29 { "$sp" } else if i == 30 { "$fp" } else { "$ra" }
}

/// The name of general-purpose register `idx`.
pub fn reg(idx: u32) -> (r: String)
    requires
        idx < 32,
    ensures
        r@ == reg_name(idx as int),
{
    owned(reg_static(idx))
}

// ------------------------------------------------------------------------
// Operand text
// ------------------------------------------------------------------------

/// `imm(reg)` memory operand text.
pub open spec fn mem_text(imm: int, rs: int) -> Seq<char> {
    dec_int(imm) + seq!['('] + reg_name(rs) + seq![')']
}

fn mem_operand(imm: i32, rs: u32) -> (r: String)
    requires
        rs < 32,
    ensures
        r@ == mem_text(imm as int, rs as int),
{
    let mut s = dec_string(imm as i64);
    push_char(&mut s, '(');
    let r = reg(rs);
    push_str(&mut s, r.as_str());
    push_char(&mut s, ')');
    assert(s@ =~= mem_text(imm as int, rs as int));
    s
}

fn ops0() -> (v: Vec<String>)
    ensures
        v.deep_view() == Seq::<Seq<char>>::empty(),
{
    let v: Vec<String> = Vec::new();
    assert(v.deep_view() =~= Seq::<Seq<char>>::empty());
    v
}

fn ops1(a: String) -> (v: Vec<String>)
    ensures
        v.deep_view() == seq![a@],
{
    let mut v: Vec<String> = Vec::new();
    v.push(a);
    assert(v.deep_view() =~= seq![a@]);
    v
}

fn ops2(a: String, b: String) -> (v: Vec<String>)
    ensures
        v.deep_view() == seq![a@, b@],
{
    let mut v: Vec<String> = Vec::new();
    let ghost av = a@;
    let ghost bv = b@;
    v.push(a);
    v.push(b);
    assert(v.deep_view() =~= seq![av, bv]);
    v
}

fn ops3(a: String, b: String, c: String) -> (v: Vec<String>)
    ensures
        v.deep_view() == seq![a@, b@, c@],
{
    let mut v: Vec<String> = Vec::new();
    let ghost av = a@;
    let ghost bv = b@;
    let ghost cv = c@;
    v.push(a);
    v.push(b);
    v.push(c);
    assert(v.deep_view() =~= seq![av, bv, cv]);
    v
}

/// Text of an optional note.
pub open spec fn note_text(s: &'static str) -> Option<Seq<char>> {
    Some(s@)
}

fn note(s: &'static str) -> (r: Option<String>)
    ensures
        r.deep_view() == note_text(s),
{
    Some(owned(s))
}

// ------------------------------------------------------------------------
// Memory-region notes
// ------------------------------------------------------------------------

/// Note for a load/store whose immediate, read as an absolute address, falls
/// in a device register window (negative immediates are never annotated).
pub open spec fn base_note(imm: int) -> Option<Seq<char>> {
    if imm < 0 {
        None
    } else {
        match spec_classify(imm as u32) {
            MemoryRegion::GpuRegisters => note_text("GPU register"),
            MemoryRegion::SpuRegisters => note_text("SPU register"),
            MemoryRegion::CoprocessorRegisters => note_text("MDEC/VIF/VU register"),
            MemoryRegion::IoController => note_text("I/O controller"),
            _ => None,
        }
    }
}

/// Note for a branch whose target lies in a device register window.
pub open spec fn branch_note(target: u32) -> Option<Seq<char>> {
    match spec_classify(target) {
        MemoryRegion::GpuRegisters => note_text("branch to GPU register"),
        MemoryRegion::SpuRegisters => note_text("branch to SPU register"),
        MemoryRegion::CoprocessorRegisters => note_text("branch to MDEC/VIF/VU register"),
        MemoryRegion::IoController => note_text("branch to I/O controller"),
        _ => None,
    }
}

/// The memory-region note for a load/store with base register `rs` and
/// immediate `imm` (the base register's runtime value is unknown, so only the
/// immediate is examined).
pub fn memory_note_for_base(rs: usize, imm: i32) -> (r: Option<String>)
    ensures
        r.deep_view() == base_note(imm as int),
{
    if imm < 0 {
        return None;
    }
    let addr: u32 = imm as u32;
    match classify_address(addr) {
        MemoryRegion::GpuRegisters => note("GPU register"),
        MemoryRegion::SpuRegisters => note("SPU register"),
        MemoryRegion::CoprocessorRegisters => note("MDEC/VIF/VU register"),
        MemoryRegion::IoController => note("I/O controller"),
        _ => None,
    }
}

/// The memory-region note for a branch target.
pub fn memory_note_for_branch(target: u32) -> (r: Option<String>)
    ensures
        r.deep_view() == branch_note(target),
{
    match classify_address(target) {
        MemoryRegion::GpuRegisters => note("branch to GPU register"),
        MemoryRegion::SpuRegisters => note("branch to SPU register"),
        MemoryRegion::CoprocessorRegisters => note("branch to MDEC/VIF/VU register"),
        MemoryRegion::IoController => note("branch to I/O controller"),
        _ => None,
    }
}

// ------------------------------------------------------------------------
// Specification of the decoder
// ------------------------------------------------------------------------

/// A register-operand triple decoding.
pub open spec fn d_regs(m: &'static str, regs: Seq<int>, n: Option<Seq<char>>) -> Decoded {
    (m@, regs.map_values(|i: int| reg_name(i)), n)
}

/// A load/store decoding: `m rt, imm(rs)` with a base note.
pub open spec fn d_mem(m: &'static str, w: u32) -> Decoded {
    (m@, seq![reg_name(rt_of(w) as int), mem_text(simm_of(w), rs_of(w) as int)], base_note(simm_of(w)))
}

/// A COP1 load/store decoding: `m $fN, imm(rs)`.
pub open spec fn d_mem_cop1(m: &'static str, w: u32) -> Decoded {
    (m@, seq![seq!['$', 'f'] + dec_nat(rt_of(w) as nat), mem_text(simm_of(w), rs_of(w) as int)],
        base_note(simm_of(w)))
}

/// A two-register conditional branch decoding: `m rs, rt, 0xTARGET`.
pub open spec fn d_branch2(m: &'static str, w: u32, addr: u32) -> Decoded {
    (m@, seq![reg_name(rs_of(w) as int), reg_name(rt_of(w) as int), hex8_0x(branch_target_of(w, addr) as nat)],
        branch_note(branch_target_of(w, addr)))
}

/// A one-register conditional branch decoding: `m rs, 0xTARGET`.
pub open spec fn d_branch1(m: &'static str, w: u32, addr: u32) -> Decoded {
    (m@, seq![reg_name(rs_of(w) as int), hex8_0x(branch_target_of(w, addr) as nat)],
        branch_note(branch_target_of(w, addr)))
}

/// An immediate arithmetic decoding with a signed decimal immediate.
pub open spec fn d_imm_dec(m: &'static str, w: u32) -> Decoded {
    (m@, seq![reg_name(rt_of(w) as int), reg_name(rs_of(w) as int), dec_int(simm_of(w))], None)
}

/// An immediate logic decoding with a `0x` hex immediate.
pub open spec fn d_imm_hex(m: &'static str, w: u32) -> Decoded {
    (m@, seq![reg_name(rt_of(w) as int), reg_name(rs_of(w) as int), hex_0x(imm_of(w) as nat)], None)
}

/// A shift-by-immediate decoding `m rd, rt, shamt`.
pub open spec fn d_shift(m: &'static str, w: u32) -> Decoded {
    (m@, seq![reg_name(rd_of(w) as int), reg_name(rt_of(w) as int), dec_nat(shamt_of(w) as nat)], None)
}

/// Decoding of SPECIAL (op 0) words, by function field.
pub open spec fn spec_special(w: u32) -> Decoded {
    let rs = rs_of(w) as int;
    let rt = rt_of(w) as int;
    let rd = rd_of(w) as int;
    let f = funct_of(w);
    if w == 0 {
        ("nop"@, Seq::empty(), None)
    } else if f == 0x00 { d_shift("sll", w) }
    else if f == 0x02 { d_shift("srl", w) }
    else if f == 0x03 { d_shift("sra", w) }
    else if f == 0x04 { d_regs("sllv", seq![rd, rt, rs], None) }
    else if f == 0x06 { d_regs("srlv", seq![rd, rt, rs], None) }
    else if f == 0x07 { d_regs("srav", seq![rd, rt, rs], None) }
    else if f == 0x08 { d_regs("jr", seq![rs], note_text("delay slot follows")) }
    else if f == 0x09 {
        ("jalr"@, seq![if rd == 31 { reg_name(rs) } else { reg_name(rs) + seq![',', ' '] + reg_name(rd) }],
            note_text("delay slot follows"))
    }
    else if f == 0x0C { ("syscall"@, seq![hex_0x((w & 0xFFFFFu32) as nat)], None) }
    else if f == 0x0D { ("break"@, seq![hex_0x((w & 0xFFFFFu32) as nat)], None) }
    else if f == 0x10 { d_regs("mfhi", seq![rd], None) }
    else if f == 0x11 { d_regs("mthi", seq![rs], None) }
    else if f == 0x12 { d_regs("mflo", seq![rd], None) }
    else if f == 0x13 { d_regs("mtlo", seq![rs], None) }
    else if f == 0x18 { d_regs("mult", seq![rs, rt], None) }
    else if f == 0x19 { d_regs("multu", seq![rs, rt], None) }
    else if f == 0x1A { d_regs("div", seq![rs, rt], None) }
    else if f == 0x1B { d_regs("divu", seq![rs, rt], None) }
    else if f == 0x20 { d_regs("add", seq![rd, rs, rt], None) }
    else if f == 0x21 { d_regs("addu", seq![rd, rs, rt], None) }
    else if f == 0x22 { d_regs("sub", seq![rd, rs, rt], None) }
    else if f == 0x23 { d_regs("subu", seq![rd, rs, rt], None) }
    else if f == 0x24 { d_regs("and", seq![rd, rs, rt], None) }
    else if f == 0x25 { d_regs("or", seq![rd, rs, rt], None) }
    else if f == 0x26 { d_regs("xor", seq![rd, rs, rt], None) }
    else if f == 0x27 { d_regs("nor", seq![rd, rs, rt], None) }
    else if f == 0x2A { d_regs("slt", seq![rd, rs, rt], None) }
    else if f == 0x2B { d_regs("sltu", seq![rd, rs, rt], None) }
    else {
        ("special"@, seq!["funct=0x"@ + hex_fixed(f as nat, 2)], note_text("unknown special"))
    }
}

/// Decoding of REGIMM (op 1) words, by `rt`.
pub open spec fn spec_regimm(w: u32, addr: u32) -> Decoded {
    let rt = rt_of(w);
    if rt == 0x00 { d_branch1("bltz", w, addr) }
    else if rt == 0x01 { d_branch1("bgez", w, addr) }
    else if rt == 0x02 { d_branch1("bltzl", w, addr) }
    else if rt == 0x03 { d_branch1("bgezl", w, addr) }
    else if rt == 0x10 { d_branch1("bltzal", w, addr) }
    else if rt == 0x11 { d_branch1("bgezal", w, addr) }
    else {
        ("regimm"@, seq!["rt="@ + dec_nat(rt as nat), reg_name(rs_of(w) as int)], note_text("unknown regimm"))
    }
}

/// Decoding of COP0 (op 0x10) words, by `rs`.
pub open spec fn spec_cop0(w: u32) -> Decoded {
    let rs = rs_of(w) as int;
    let rt = rt_of(w) as int;
    let rd = rd_of(w) as int;
    if rs == 0 { d_regs("mfc0", seq![rd, rt], note_text("coprocessor")) }
    else if rs == 4 { d_regs("mtc0", seq![rd, rt], note_text("coprocessor")) }
    else { d_regs("cop0", seq![rs, rt, rd], note_text("coprocessor")) }
}

/// The note of a CACHE instruction.
pub open spec fn cache_note(shamt: nat) -> Seq<char> {
    if shamt == 0 { "index"@ } else if shamt == 1 { "set"@ } else { "cache op "@ + dec_nat(shamt) }
}

/// Decoding of every other opcode.
pub open spec fn spec_other(w: u32, addr: u32) -> Decoded {
    let op = op_of(w);
    let rs = rs_of(w) as int;
    let rt = rt_of(w) as int;
    let rd = rd_of(w) as int;
    if op == 0x02 { ("j"@, seq![hex8_0x(jump_target_of(w, addr) as nat)], note_text("jump target")) }
    else if op == 0x03 { ("jal"@, seq![hex8_0x(jump_target_of(w, addr) as nat)], note_text("jump target")) }
    else if op == 0x04 { d_branch2("beq", w, addr) }
    else if op == 0x05 { d_branch2("bne", w, addr) }
    else if op == 0x06 { d_imm_dec("addi", w) }
    else if op == 0x07 { d_imm_dec("addiu", w) }
    else if op == 0x08 { d_imm_dec("slti", w) }
    else if op == 0x09 { d_imm_dec("sltiu", w) }
    else if op == 0x0A { d_imm_hex("andi", w) }
    else if op == 0x0B { d_imm_hex("ori", w) }
    else if op == 0x0C { d_imm_hex("xori", w) }
    else if op == 0x0D { d_imm_hex("ori", w) }
    else if op == 0x0E { d_imm_hex("xori", w) }
    else if op == 0x0F { ("lui"@, seq![reg_name(rt), hex_0x(imm_of(w) as nat)], None) }
    else if op == 0x10 { spec_cop0(w) }
    else if op == 0x11 || op == 0x12 || op == 0x13 {
        (seq!['c', 'o', 'p'] + dec_nat((op - 0x10) as nat), seq![reg_name(rs), reg_name(rt), reg_name(rd)],
            note_text("coprocessor"))
    }
    else if op == 0x14 { d_branch2("beql", w, addr) }
    else if op == 0x15 { d_branch2("bnel", w, addr) }
    else if op == 0x20 { d_mem("lb", w) }
    else if op == 0x21 { d_mem("lh", w) }
    else if op == 0x22 { d_mem("lwl", w) }
    else if op == 0x23 { d_mem("lw", w) }
    else if op == 0x24 { d_mem("lbu", w) }
    else if op == 0x25 { d_mem("lhu", w) }
    else if op == 0x26 { d_mem("lwr", w) }
    else if op == 0x28 { d_mem("sb", w) }
    else if op == 0x29 { d_mem("sh", w) }
    else if op == 0x2A { d_mem("swl", w) }
    else if op == 0x2B { d_mem("sw", w) }
    else if op == 0x2E { d_mem("swr", w) }
    else if op == 0x2F {
        ("cache"@, seq![reg_name(rt), mem_text(simm_of(w), rs)], Some(cache_note(shamt_of(w) as nat)))
    }
    else if op == 0x30 { d_mem("ll", w) }
    else if op == 0x31 { d_mem_cop1("lwc1", w) }
    else if op == 0x38 { d_mem("sc", w) }
    else if op == 0x39 { d_mem_cop1("swc1", w) }
    else {
        (".word"@, seq![hex8_0x(w as nat)], Some("unknown opcode 0x"@ + hex_fixed(op as nat, 2)))
    }
}

/// The full decoding of one R3000A word at address `addr`.
pub open spec fn spec_decode(w: u32, addr: u32) -> Decoded {
    let op = op_of(w);
    if op == 0 {
        spec_special(w)
    } else if op == 1 {
        spec_regimm(w, addr)
    } else {
        spec_other(w, addr)
    }
}

pub(crate) proof fn lemma_funct_nonzero(w: u32)
    by (bit_vector)
    ensures
        w & 0x3Fu32 != 0 ==> w != 0,
        (w >> 26u32) & 0x3Fu32 != 0 ==> w != 0,
{
}

/// A SPECIAL register-register word lists its registers as the machine
/// reads them: the ALU operations (funct 0x20..0x27, 0x2A, 0x2B) as
/// `rd, rs, rt`, the shifts by a register as `rd, rt, rs`, and multiply and
/// divide as `rs, rt`, where rd, rs and rt are bits 15..11, 25..21 and
/// 20..16; none carries a note.
pub proof fn special_register_operands(w: u32, addr: u32)
    requires
        (w >> 26u32) & 0x3Fu32 == 0,
    ensures
        ({
            let f = w & 0x3Fu32;
            let d = reg_name(((w >> 11u32) & 0x1Fu32) as int);
            let s = reg_name(((w >> 21u32) & 0x1Fu32) as int);
            let t = reg_name(((w >> 16u32) & 0x1Fu32) as int);
            let dec = spec_decode(w, addr);
            &&& (0x20 <= f <= 0x27 || f == 0x2A || f == 0x2B) ==> dec.1 == seq![d, s, t] && dec.2 is None
            &&& (f == 0x04 || f == 0x06 || f == 0x07) ==> dec.1 == seq![d, t, s] && dec.2 is None
            &&& (0x18 <= f <= 0x1B) ==> dec.1 == seq![s, t] && dec.2 is None
            &&& f == 0x20 ==> dec.0 == "add"@
            &&& f == 0x21 ==> dec.0 == "addu"@
            &&& f == 0x22 ==> dec.0 == "sub"@
            &&& f == 0x23 ==> dec.0 == "subu"@
            &&& f == 0x24 ==> dec.0 == "and"@
            &&& f == 0x25 ==> dec.0 == "or"@
            &&& f == 0x26 ==> dec.0 == "xor"@
            &&& f == 0x27 ==> dec.0 == "nor"@
            &&& f == 0x2A ==> dec.0 == "slt"@
            &&& f == 0x2B ==> dec.0 == "sltu"@
        }),
{
    lemma_funct_nonzero(w);
    let rd = rd_of(w) as int;
    let rs = rs_of(w) as int;
    let rt = rt_of(w) as int;
    assert(seq![rd, rs, rt].map_values(|i: int| reg_name(i)) =~= seq![reg_name(rd), reg_name(rs), reg_name(rt)]);
    assert(seq![rd, rt, rs].map_values(|i: int| reg_name(i)) =~= seq![reg_name(rd), reg_name(rt), reg_name(rs)]);
    assert(seq![rs, rt].map_values(|i: int| reg_name(i)) =~= seq![reg_name(rs), reg_name(rt)]);
}

/// The shifts by an immediate list `rd, rt, shamt` (shamt in decimal, bits
/// 10..6); `lui` lists `rt` and the low 16 bits in hex; the immediate forms
/// of opcodes 6..14 list `rt, rs, imm`.
pub proof fn ps1_immediate_operands(w: u32, addr: u32)
    ensures
        ({
            let op = (w >> 26u32) & 0x3Fu32;
            let f = w & 0x3Fu32;
            let d = reg_name(((w >> 11u32) & 0x1Fu32) as int);
            let s = reg_name(((w >> 21u32) & 0x1Fu32) as int);
            let t = reg_name(((w >> 16u32) & 0x1Fu32) as int);
            let dec = spec_decode(w, addr);
            &&& (op == 0 && w != 0 && (f == 0 || f == 2 || f == 3)) ==> dec.1 == seq![d, t, dec_nat(((w >> 6u32) & 0x1Fu32) as nat)]
            &&& (op == 0 && w != 0 && f == 0) ==> dec.0 == "sll"@
            &&& (op == 0 && f == 2) ==> dec.0 == "srl"@
            &&& (op == 0 && f == 3) ==> dec.0 == "sra"@
            &&& op == 0x0F ==> dec.0 == "lui"@ && dec.1 == seq![t, hex_0x((w & 0xFFFFu32) as nat)]
            &&& (6 <= op <= 14) ==> dec.1.len() == 3 && dec.1[0] == t && dec.1[1] == s
        }),
{
    lemma_funct_nonzero(w);
}

/// A load or store lists `rt, simm(rs)`: the register in bits 20..16, then
/// the sign-extended low 16 bits in decimal and the base register of bits
/// 25..21 in brackets; `lw` is opcode 0x23 and `sw` 0x2B.
pub proof fn ps1_memory_operands(w: u32, addr: u32)
    requires
        ({
            let op = (w >> 26u32) & 0x3Fu32;
            (0x20 <= op <= 0x26) || (0x28 <= op <= 0x2B) || op == 0x2E || op == 0x30 || op == 0x38
        }),
    ensures
        ({
            let op = (w >> 26u32) & 0x3Fu32;
            let imm = (w & 0xFFFFu32) as int;
            let simm = if imm < 0x8000 { imm } else { imm - 0x10000 };
            let dec = spec_decode(w, addr);
            &&& dec.1 == seq![reg_name(((w >> 16u32) & 0x1Fu32) as int),
                dec_int(simm) + seq!['('] + reg_name(((w >> 21u32) & 0x1Fu32) as int) + seq![')']]
            &&& op == 0x23 ==> dec.0 == "lw"@
            &&& op == 0x2B ==> dec.0 == "sw"@
            &&& op == 0x20 ==> dec.0 == "lb"@
            &&& op == 0x28 ==> dec.0 == "sb"@
        }),
{
}

/// A J or JAL lists one operand, its target in `0x%08X` form, and that
/// target keeps the top four bits of the delay slot's address `addr + 4`
/// with the 26-bit field times four below them. A BEQ or BNE lists `rs`,
/// `rt` and a target that is `addr + 4` plus four times the sign-extended
/// low 16 bits (when that stays within 32 bits).
pub proof fn ps1_transfer_targets(w: u32, addr: u32)
    requires
        addr + 4 <= u32::MAX,
    ensures
        ((w >> 26u32) & 0x3Fu32 == 2 || (w >> 26u32) & 0x3Fu32 == 3) ==> ({
            let dec = spec_decode(w, addr);
            let t = jump_target_of(w, addr);
            &&& dec.0 == (if (w >> 26u32) & 0x3Fu32 == 2 { "j"@ } else { "jal"@ })
            &&& dec.1 == seq![hex8_0x(t as nat)]
            &&& t & 0xF000_0000u32 == ((addr + 4) as u32) & 0xF000_0000u32
            &&& t & 0x0FFF_FFFFu32 == (w & 0x03FF_FFFFu32) << 2u32
        }),
        ((w >> 26u32) & 0x3Fu32 == 4 || (w >> 26u32) & 0x3Fu32 == 5) ==> ({
            let dec = spec_decode(w, addr);
            let imm = (w & 0xFFFFu32) as int;
            let tt = addr + 4 + 4 * (if imm < 0x8000 { imm } else { imm - 0x10000 });
            &&& dec.1.len() == 3
            &&& dec.1[0] == reg_name(((w >> 21u32) & 0x1Fu32) as int)
            &&& dec.1[1] == reg_name(((w >> 16u32) & 0x1Fu32) as int)
            &&& (0 <= tt <= u32::MAX ==> dec.1[2] == hex8_0x(tt as nat))
        }),
{
    crate::cfg::lemma_region_jump(((addr + 4) as u32), w, jump_target_of(w, addr));
}

/// The words of a J or JAL instruction need `addr + 4` to fit.
pub open spec fn decodable_at(w: u32, addr: u32) -> bool {
    (op_of(w) == 2 || op_of(w) == 3) ==> addr + 4 <= u32::MAX
}

// ------------------------------------------------------------------------
// Decoder
// ------------------------------------------------------------------------

fn d_regs_exec(m: &'static str, regs: &Vec<u32>, n: Option<String>) -> (r: DecodedExec)
    requires
        forall|i: int| 0 <= i < regs.len() ==> regs[i] < 32,
        regs.len() <= 3,
    ensures
        r.deep_view() == d_regs(m, regs@.map_values(|x: u32| x as int), n.deep_view()),
{
    let mut v: Vec<String> = Vec::new();
    let mut i: usize = 0;
    while i < regs.len()
        invariant
            0 <= i <= regs.len(),
            forall|k: int| 0 <= k < regs.len() ==> regs[k] < 32,
            v.len() == i,
            forall|k: int| 0 <= k < i ==> (#[trigger] v[k])@ == reg_name(regs[k] as int),
        decreases regs.len() - i,
    {
        v.push(reg(regs[i]));
        i = i + 1;
    }
    assert(v.deep_view() =~= regs@.map_values(|x: u32| x as int).map_values(|j: int| reg_name(j)));
    (owned(m), v, n)
}

fn d_mem_exec(m: &'static str, w: u32) -> (r: DecodedExec)
    ensures
        r.deep_view() == d_mem(m, w),
{
    proof { lemma_fields_bounded(w); }
    let rs: u32 = (w >> 21) & 0x1F;
    let rt: u32 = (w >> 16) & 0x1F;
    let imm: i32 = simm(w);
    let n = memory_note_for_base(rs as usize, imm);
    (owned(m), ops2(reg(rt), mem_operand(imm, rs)), n)
}

fn d_mem_cop1_exec(m: &'static str, w: u32) -> (r: DecodedExec)
    ensures
        r.deep_view() == d_mem_cop1(m, w),
{
    proof { lemma_fields_bounded(w); }
    let rs: u32 = (w >> 21) & 0x1F;
    let rt: u32 = (w >> 16) & 0x1F;
    let imm: i32 = simm(w);
    let n = memory_note_for_base(rs as usize, imm);
    let mut f = owned("$f");
    push_dec_u64(&mut f, rt as u64);
    proof { reveal_strlit("$f"); }
    assert(f@ =~= seq!['$', 'f'] + dec_nat(rt as nat));
    (owned(m), ops2(f, mem_operand(imm, rs)), n)
}

fn d_branch2_exec(m: &'static str, w: u32, addr: u32) -> (r: DecodedExec)
    ensures
        r.deep_view() == d_branch2(m, w, addr),
{
    proof { lemma_fields_bounded(w); }
    let t: u32 = branch_target(w, addr);
    let n = memory_note_for_branch(t);
    (owned(m), ops3(reg((w >> 21) & 0x1F), reg((w >> 16) & 0x1F), hex8_string(t)), n)
}

fn d_branch1_exec(m: &'static str, w: u32, addr: u32) -> (r: DecodedExec)
    ensures
        r.deep_view() == d_branch1(m, w, addr),
{
    proof { lemma_fields_bounded(w); }
    let t: u32 = branch_target(w, addr);
    let n = memory_note_for_branch(t);
    (owned(m), ops2(reg((w >> 21) & 0x1F), hex8_string(t)), n)
}

fn d_imm_dec_exec(m: &'static str, w: u32) -> (r: DecodedExec)
    ensures
        r.deep_view() == d_imm_dec(m, w),
{
    proof { lemma_fields_bounded(w); }
    (owned(m), ops3(reg((w >> 16) & 0x1F), reg((w >> 21) & 0x1F), dec_string(simm(w) as i64)), None)
}

fn d_imm_hex_exec(m: &'static str, w: u32) -> (r: DecodedExec)
    ensures
        r.deep_view() == d_imm_hex(m, w),
{
    proof { lemma_fields_bounded(w); }
    (owned(m), ops3(reg((w >> 16) & 0x1F), reg((w >> 21) & 0x1F), hex_string(w & 0xFFFF)), None)
}

fn d_shift_exec(m: &'static str, w: u32) -> (r: DecodedExec)
    ensures
        r.deep_view() == d_shift(m, w),
{
    proof { lemma_fields_bounded(w); }
    let mut sh = String::new();
    push_dec_u64(&mut sh, ((w >> 6) & 0x1F) as u64);
    assert(sh@ =~= dec_nat(shamt_of(w) as nat));
    (owned(m), ops3(reg((w >> 11) & 0x1F), reg((w >> 16) & 0x1F), sh), None)
}

fn regs_vec1(a: u32) -> (v: Vec<u32>)
    ensures
        v@ == seq![a],
{
    let v = vec![a];
    assert(v@ =~= seq![a]);
    v
}

fn regs_vec2(a: u32, b: u32) -> (v: Vec<u32>)
    ensures
        v@ == seq![a, b],
{
    let v = vec![a, b];
    assert(v@ =~= seq![a, b]);
    v
}

fn regs_vec3(a: u32, b: u32, c: u32) -> (v: Vec<u32>)
    ensures
        v@ == seq![a, b, c],
{
    let v = vec![a, b, c];
    assert(v@ =~= seq![a, b, c]);
    v
}

fn regs1(m: &'static str, a: u32, n: Option<String>) -> (r: DecodedExec)
    requires
        a < 32,
    ensures
        r.deep_view() == d_regs(m, seq![a as int], n.deep_view()),
{
    let v = regs_vec1(a);
    let r = d_regs_exec(m, &v, n);
    assert(v@.map_values(|x: u32| x as int) =~= seq![a as int]);
    r
}

fn regs2(m: &'static str, a: u32, b: u32, n: Option<String>) -> (r: DecodedExec)
    requires
        a < 32, b < 32,
    ensures
        r.deep_view() == d_regs(m, seq![a as int, b as int], n.deep_view()),
{
    let v = regs_vec2(a, b);
    let r = d_regs_exec(m, &v, n);
    assert(v@.map_values(|x: u32| x as int) =~= seq![a as int, b as int]);
    r
}

fn regs3(m: &'static str, a: u32, b: u32, c: u32, n: Option<String>) -> (r: DecodedExec)
    requires
        a < 32, b < 32, c < 32,
    ensures
        r.deep_view() == d_regs(m, seq![a as int, b as int, c as int], n.deep_view()),
{
    let v = regs_vec3(a, b, c);
    let r = d_regs_exec(m, &v, n);
    assert(v@.map_values(|x: u32| x as int) =~= seq![a as int, b as int, c as int]);
    r
}

/// Decode a SPECIAL (op 0) word by its function field.
pub fn decode_special(instr: u32, rs: usize, rt: usize, rd: usize, shamt: u32, funct: u32) -> (r: DecodedExec)
    requires
        rs == rs_of(instr), rt == rt_of(instr), rd == rd_of(instr), shamt == shamt_of(instr),
        funct == funct_of(instr),
    ensures
        r.deep_view() == spec_special(instr),
{
    proof { lemma_fields_bounded(instr); }
    let rs: u32 = rs as u32;
    let rt: u32 = rt as u32;
    let rd: u32 = rd as u32;
    if instr == 0 {
        return (owned("nop"), ops0(), None);
    }
    if funct == 0x00 { d_shift_exec("sll", instr) }
    else if funct == 0x02 { d_shift_exec("srl", instr) }
    else if funct == 0x03 { d_shift_exec("sra", instr) }
    else if funct == 0x04 { regs3("sllv", rd, rt, rs, None) }
    else if funct == 0x06 { regs3("srlv", rd, rt, rs, None) }
    else if funct == 0x07 { regs3("srav", rd, rt, rs, None) }
    else if funct == 0x08 { regs1("jr", rs, note("delay slot follows")) }
    else if funct == 0x09 {
        let mut s = reg(rs);
        if rd != 31 {
            push_str(&mut s, ", ");
            let r2 = reg(rd);
            push_str(&mut s, r2.as_str());
            proof { reveal_strlit(", "); }
        }
        assert(s@ =~= (if rd == 31 { reg_name(rs as int) } else { reg_name(rs as int) + seq![',', ' '] + reg_name(rd as int) }));
        (owned("jalr"), ops1(s), note("delay slot follows"))
    }
    else if funct == 0x0C { (owned("syscall"), ops1(hex_string(instr & 0xFFFFF)), None) }
    else if funct == 0x0D { (owned("break"), ops1(hex_string(instr & 0xFFFFF)), None) }
    else if funct == 0x10 { regs1("mfhi", rd, None) }
    else if funct == 0x11 { regs1("mthi", rs, None) }
    else if funct == 0x12 { regs1("mflo", rd, None) }
    else if funct == 0x13 { regs1("mtlo", rs, None) }
    else if funct == 0x18 { regs2("mult", rs, rt, None) }
    else if funct == 0x19 { regs2("multu", rs, rt, None) }
    else if funct == 0x1A { regs2("div", rs, rt, None) }
    else if funct == 0x1B { regs2("divu", rs, rt, None) }
    else if funct == 0x20 { regs3("add", rd, rs, rt, None) }
    else if funct == 0x21 { regs3("addu", rd, rs, rt, None) }
    else if funct == 0x22 { regs3("sub", rd, rs, rt, None) }
    else if funct == 0x23 { regs3("subu", rd, rs, rt, None) }
    else if funct == 0x24 { regs3("and", rd, rs, rt, None) }
    else if funct == 0x25 { regs3("or", rd, rs, rt, None) }
    else if funct == 0x26 { regs3("xor", rd, rs, rt, None) }
    else if funct == 0x27 { regs3("nor", rd, rs, rt, None) }
    else if funct == 0x2A { regs3("slt", rd, rs, rt, None) }
    else if funct == 0x2B { regs3("sltu", rd, rs, rt, None) }
    else {
        let mut s = owned("funct=0x");
        push_hex_fixed(&mut s, funct, 2);
        (owned("special"), ops1(s), note("unknown special"))
    }
}

/// Decode a REGIMM (op 1) word by its `rt` field.
pub fn decode_regimm(rs: usize, rt: usize, branch_target: u32, instr: u32, addr: u32) -> (r: DecodedExec)
    requires
        rs == rs_of(instr), rt == rt_of(instr), branch_target == branch_target_of(instr, addr),
    ensures
        r.deep_view() == spec_regimm(instr, addr),
{
    proof { lemma_fields_bounded(instr); }
    if rt == 0x00 { d_branch1_exec("bltz", instr, addr) }
    else if rt == 0x01 { d_branch1_exec("bgez", instr, addr) }
    else if rt == 0x02 { d_branch1_exec("bltzl", instr, addr) }
    else if rt == 0x03 { d_branch1_exec("bgezl", instr, addr) }
    else if rt == 0x10 { d_branch1_exec("bltzal", instr, addr) }
    else if rt == 0x11 { d_branch1_exec("bgezal", instr, addr) }
    else {
        let mut s = owned("rt=");
        push_dec_u64(&mut s, rt as u64);
        (owned("regimm"), ops2(s, reg(rs as u32)), note("unknown regimm"))
    }
}

/// Decode a COP0 (op 0x10) word by its `rs` field.
pub fn decode_cop0(rs: usize, rt: usize, rd: usize, shamt: u32, funct: u32, instr: u32) -> (r: DecodedExec)
    requires
        rs == rs_of(instr), rt == rt_of(instr), rd == rd_of(instr),
    ensures
        r.deep_view() == spec_cop0(instr),
{
    proof { lemma_fields_bounded(instr); }
    if rs == 0x00 { regs2("mfc0", rd as u32, rt as u32, note("coprocessor")) }
    else if rs == 0x04 { regs2("mtc0", rd as u32, rt as u32, note("coprocessor")) }
    else { regs3("cop0", rs as u32, rt as u32, rd as u32, note("coprocessor")) }
}

/// Decode a load/store `mnem rt, imm(rs)` with its memory note.
pub fn load_store(mnem: &'static str, instr: u32) -> (r: DecodedExec)
    ensures
        r.deep_view() == d_mem(mnem, instr),
{
    d_mem_exec(mnem, instr)
}

/// Decode a COP1 load/store `mnem $fN, imm(rs)` with its memory note.
pub fn load_store_cop1(mnem: &'static str, instr: u32) -> (r: DecodedExec)
    ensures
        r.deep_view() == d_mem_cop1(mnem, instr),
{
    d_mem_cop1_exec(mnem, instr)
}

fn decode_other(instr: u32, addr: u32) -> (r: DecodedExec)
    requires
        decodable_at(instr, addr),
    ensures
        r.deep_view() == spec_other(instr, addr),
{
    proof { lemma_fields_bounded(instr); }
    let op: u32 = (instr >> 26) & 0x3F;
    let rs: u32 = (instr >> 21) & 0x1F;
    let rt: u32 = (instr >> 16) & 0x1F;
    let rd: u32 = (instr >> 11) & 0x1F;
    if op == 0x02 { (owned("j"), ops1(hex8_string(jump_target(instr, addr))), note("jump target")) }
    else if op == 0x03 { (owned("jal"), ops1(hex8_string(jump_target(instr, addr))), note("jump target")) }
    else if op == 0x04 { d_branch2_exec("beq", instr, addr) }
    else if op == 0x05 { d_branch2_exec("bne", instr, addr) }
    else if op == 0x06 { d_imm_dec_exec("addi", instr) }
    else if op == 0x07 { d_imm_dec_exec("addiu", instr) }
    else if op == 0x08 { d_imm_dec_exec("slti", instr) }
    else if op == 0x09 { d_imm_dec_exec("sltiu", instr) }
    else if op == 0x0A { d_imm_hex_exec("andi", instr) }
    else if op == 0x0B { d_imm_hex_exec("ori", instr) }
    else if op == 0x0C { d_imm_hex_exec("xori", instr) }
    else if op == 0x0D { d_imm_hex_exec("ori", instr) }
    else if op == 0x0E { d_imm_hex_exec("xori", instr) }
    else if op == 0x0F { (owned("lui"), ops2(reg(rt), hex_string(instr & 0xFFFF)), None) }
    else if op == 0x10 { decode_cop0(rs as usize, rt as usize, rd as usize, (instr >> 6) & 0x1F, instr & 0x3F, instr) }
    else if op == 0x11 || op == 0x12 || op == 0x13 {
        let mut m = owned("cop");
        push_dec_u64(&mut m, (op - 0x10) as u64);
        proof { reveal_strlit("cop"); }
        assert(m@ =~= seq!['c', 'o', 'p'] + dec_nat((op - 0x10) as nat));
        (m, ops3(reg(rs), reg(rt), reg(rd)), note("coprocessor"))
    }
    else if op == 0x14 { d_branch2_exec("beql", instr, addr) }
    else if op == 0x15 { d_branch2_exec("bnel", instr, addr) }
    else if op == 0x20 { load_store("lb", instr) }
    else if op == 0x21 { load_store("lh", instr) }
    else if op == 0x22 { load_store("lwl", instr) }
    else if op == 0x23 { load_store("lw", instr) }
    else if op == 0x24 { load_store("lbu", instr) }
    else if op == 0x25 { load_store("lhu", instr) }
    else if op == 0x26 { load_store("lwr", instr) }
    else if op == 0x28 { load_store("sb", instr) }
    else if op == 0x29 { load_store("sh", instr) }
    else if op == 0x2A { load_store("swl", instr) }
    else if op == 0x2B { load_store("sw", instr) }
    else if op == 0x2E { load_store("swr", instr) }
    else if op == 0x2F {
        let shamt: u32 = (instr >> 6) & 0x1F;
        let cache_op = if shamt == 0 {
            owned("index")
        } else if shamt == 1 {
            owned("set")
        } else {
            let mut c = owned("cache op ");
            push_dec_u64(&mut c, shamt as u64);
            c
        };
        (owned("cache"), ops2(reg(rt), mem_operand(simm(instr), rs)), Some(cache_op))
    }
    else if op == 0x30 { load_store("ll", instr) }
    else if op == 0x31 { load_store_cop1("lwc1", instr) }
    else if op == 0x38 { load_store("sc", instr) }
    else if op == 0x39 { load_store_cop1("swc1", instr) }
    else {
        let mut n = owned("unknown opcode 0x");
        push_hex_fixed(&mut n, op, 2);
        (owned(".word"), ops1(hex8_string(instr)), Some(n))
    }
}

/// Decode one R3000A instruction word at address `addr`.
pub fn decode_r3000a(instr: u32, addr: u32) -> (r: DecodedExec)
    requires
        decodable_at(instr, addr),
    ensures
        r.deep_view() == spec_decode(instr, addr),
{
    proof { lemma_fields_bounded(instr); }
    let op: u32 = (instr >> 26) & 0x3F;
    let rs: usize = ((instr >> 21) & 0x1F) as usize;
    let rt: usize = ((instr >> 16) & 0x1F) as usize;
    let rd: usize = ((instr >> 11) & 0x1F) as usize;
    let shamt: u32 = (instr >> 6) & 0x1F;
    let funct: u32 = instr & 0x3F;
    if op == 0x00 {
        decode_special(instr, rs, rt, rd, shamt, funct)
    } else if op == 0x01 {
        decode_regimm(rs, rt, branch_target(instr, addr), instr, addr)
    } else {
        decode_other(instr, addr)
    }
}

/// The big-endian word at byte offset `off`.
pub open spec fn be_word(data: Seq<u8>, off: int) -> u32 {
    ((data[off] as u32) << 24u32) | ((data[off + 1] as u32) << 16u32) | ((data[off + 2] as u32) << 8u32)
        | (data[off + 3] as u32)
}

/// The section's words are big-endian: word `i` is bytes `4i..4i+4`, the
/// first most significant.
pub proof fn be_word_is_bytes(data: Seq<u8>, off: int)
    requires
        0 <= off,
        off + 4 <= data.len(),
    ensures
        be_word(data, off) as int == 16777216 * data[off] + 65536 * data[off + 1] + 256 * data[off + 2] + data[off + 3],
{
    crate::cfg::lemma_word_bytes(data[off], data[off + 1], data[off + 2], data[off + 3]);
}

/// What line `i` of a section disassembly holds.
pub open spec fn line_matches(line: DisasmLine, data: Seq<u8>, base_addr: u32, i: int) -> bool {
    let w = be_word(data, 4 * i);
    let addr = (base_addr + 4 * i) as u32;
    &&& line.offset == 4 * i
    &&& line.address == addr
    &&& line.raw_word == w
    &&& (line.mnemonic@, line.operands.deep_view(), line.note.deep_view()) == spec_decode(w, addr)
}

/// Every whole word's address fits in 32 bits, and so does the address after
/// a J/JAL.
pub open spec fn ps1_section_fits(data: Seq<u8>, base_addr: u32) -> bool {
    forall|i: int| 0 <= i < data.len() / 4 ==> #[trigger] ps1_word_fits(data, base_addr, i)
}

/// Word `i`'s address fits in 32 bits, and so does the one after it when
/// the word is a J/JAL.
pub open spec fn ps1_word_fits(data: Seq<u8>, base_addr: u32, i: int) -> bool {
    &&& base_addr + 4 * i <= u32::MAX
    &&& decodable_at(be_word(data, 4 * i), (base_addr + 4 * i) as u32)
}

/// Whether [`disassemble_ps1_section`] takes `data` at `base_addr`.
pub fn ps1_section_fits_in(data: &[u8], base_addr: u32) -> (b: bool)
    ensures
        b == ps1_section_fits(data@, base_addr),
{
    let n: usize = data.len() / 4;
    let mut k: usize = 0;
    while k < n
        invariant
            n == data.len() / 4,
            k <= n,
            forall|i: int| 0 <= i < k ==> #[trigger] ps1_word_fits(data@, base_addr, i),
        decreases n - k,
    {
        let offset: usize = k * 4;
        if offset as u64 > 0xFFFF_FFFF - base_addr as u64 {
            assert(!ps1_word_fits(data@, base_addr, k as int));
            return false;
        }
        let instr: u32 = ((data[offset] as u32) << 24) | ((data[offset + 1] as u32) << 16)
            | ((data[offset + 2] as u32) << 8) | (data[offset + 3] as u32);
        assert(instr == be_word(data@, 4 * k));
        let op: u32 = (instr >> 26) & 0x3F;
        if (op == 2 || op == 3) && offset as u64 + 4 > 0xFFFF_FFFF - base_addr as u64 {
            assert(!ps1_word_fits(data@, base_addr, k as int));
            return false;
        }
        assert(ps1_word_fits(data@, base_addr, k as int));
        k = k + 1;
    }
    true
}

/// Decode a big-endian PS1 code section: one line per whole 4-byte word
/// (a trailing partial word is ignored), at `base_addr + offset`.
pub fn disassemble_ps1_section(data: &[u8], base_addr: u32) -> (lines: Vec<DisasmLine>)
    requires
        ps1_section_fits(data@, base_addr),
    ensures
        lines.len() == data.len() / 4,
        forall|i: int| 0 <= i < lines.len() ==> line_matches(#[trigger] lines[i], data@, base_addr, i),
{
    let mut lines: Vec<DisasmLine> = Vec::new();
    let n: usize = data.len() / 4;
    let mut k: usize = 0;
    while k < n
        invariant
            n == data.len() / 4,
            ps1_section_fits(data@, base_addr),
            0 <= k <= n,
            lines.len() == k,
            forall|i: int| 0 <= i < k ==> line_matches(#[trigger] lines[i], data@, base_addr, i),
        decreases n - k,
    {
        let offset: usize = k * 4;
        assert(ps1_word_fits(data@, base_addr, k as int));
        let addr: u32 = base_addr + offset as u32;
        let instr: u32 = ((data[offset] as u32) << 24) | ((data[offset + 1] as u32) << 16)
            | ((data[offset + 2] as u32) << 8) | (data[offset + 3] as u32);
        assert(instr == be_word(data@, 4 * k));
        let (mnemonic, operands, note) = decode_r3000a(instr, addr);
        let line = DisasmLine { offset: offset as u32, address: addr, raw_word: instr, mnemonic, operands, note };
        assert(line_matches(line, data@, base_addr, k as int));
        lines.push(line);
        k = k + 1;
    }
    lines
}

} // verus!
