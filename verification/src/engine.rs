//! Shared analysis engine: byte readers, format identification, the MIPS and
//! GameBoy text disassemblers, function detection, the call graph and the
//! recompiler configuration writer.

use vstd::prelude::*;
use crate::ps1_disasm::{
    branch_target, branch_target_of, funct_of, imm_of, jump_target, jump_target_of, lemma_fields_bounded, op_of,
    reg, reg_name, rd_of, rs_of, rt_of, shamt_of, simm, simm_of,
};
use crate::cfg::word_at;
use crate::order::{lists_set, sorted_elems, lemma_sorted_elems, lemma_increasing_refs, strictly_increasing};
use vstd::std_specs::iter::IteratorSpec;
use std::collections::{BTreeMap, BTreeSet};
use vstd::std_specs::btree::increasing_seq;
use crate::text::{utf8_lossy, dec_int, dec_nat, hex_0x, hex_fixed, owned, push_char, push_dec_i64, push_dec_u64, push_hex_fixed, push_hex_min, push_str};

verus! {

broadcast use vstd::laws_cmp::group_laws_cmp, vstd::std_specs::btree::group_btree_axioms, vstd::string::axiom_spec_iter;

// ---------------------------------------------------------------------------
// Byte readers
// ---------------------------------------------------------------------------

/// The 16-bit value at byte offset `off`, little- or big-endian.
pub open spec fn u16_at(data: Seq<u8>, off: int, is_le: bool) -> u16 {
    if is_le {
        ((data[off] as u16) | ((data[off + 1] as u16) << 8u16)) as u16
    } else {
        (((data[off] as u16) << 8u16) | (data[off + 1] as u16)) as u16
    }
}

/// A 16-bit value read at `off` is its two bytes as a number: the first
/// least significant when little-endian, most significant otherwise.
pub proof fn u16_at_is_bytes(data: Seq<u8>, off: int, is_le: bool)
    requires
        0 <= off,
        off + 2 <= data.len(),
    ensures
        is_le ==> u16_at(data, off, is_le) as int == data[off] + 256 * data[off + 1],
        !is_le ==> u16_at(data, off, is_le) as int == 256 * data[off] + data[off + 1],
{
    crate::cfg::lemma_word_bytes(data[off], data[off + 1], 0, 0);
}

/// Reads a 32-bit value at `offset`; 0 when fewer than four bytes remain.
pub fn read_u32(data: &[u8], offset: usize, is_little_endian: bool) -> (r: u32)
    ensures
        r == (if offset + 4 <= data.len() { word_at(data@, offset as int, is_little_endian) } else { 0 }),
{
    if offset > data.len() || data.len() - offset < 4 {
        return 0;
    }
    crate::cfg::read_word(data, offset, is_little_endian)
}

/// Reads a 16-bit value at `offset`; 0 when fewer than two bytes remain.
pub fn read_u16(data: &[u8], offset: usize, is_little_endian: bool) -> (r: u16)
    ensures
        r == (if offset + 2 <= data.len() { u16_at(data@, offset as int, is_little_endian) } else { 0 }),
{
    if offset > data.len() || data.len() - offset < 2 {
        return 0;
    }
    if is_little_endian {
        ((data[offset] as u16) | ((data[offset + 1] as u16) << 8)) as u16
    } else {
        (((data[offset] as u16) << 8) | (data[offset + 1] as u16)) as u16
    }
}


// ---------------------------------------------------------------------------
// MIPS text disassembler
// ---------------------------------------------------------------------------

/// `a, b`.
pub open spec fn j2(a: Seq<char>, b: Seq<char>) -> Seq<char> { a + ", "@ + b }

/// `a, b, c`.
pub open spec fn j3(a: Seq<char>, b: Seq<char>, c: Seq<char>) -> Seq<char> { a + ", "@ + b + ", "@ + c }

/// The `$`-register name of a field value.
pub open spec fn rn(i: u32) -> Seq<char> { reg_name(i as int) }

/// The memory operand `simm(rs)` of a load or store word.
pub open spec fn mem_operand(w: u32) -> Seq<char> { dec_int(simm_of(w)) + "("@ + rn(rs_of(w)) + ")"@ }

/// The `rs=.., rt=.., rd=..` fields of a coprocessor word.
pub open spec fn cop_fields(w: u32) -> Seq<char> {
    "rs="@ + dec_nat(rs_of(w) as nat) + ", rt="@ + dec_nat(rt_of(w) as nat) + ", rd="@ + dec_nat(rd_of(w) as nat)
}

/// The (mnemonic, operands) text of a SPECIAL-opcode word.
pub open spec fn mips_special_text(w: u32) -> (Seq<char>, Seq<char>) {
    let rs = rn(rs_of(w));
    let rt = rn(rt_of(w));
    let rd = rn(rd_of(w));
    let sh = dec_nat(shamt_of(w) as nat);
    let code = hex_0x((w & 0xFFFFFu32) as nat);
    let f = funct_of(w);
    if w == 0 { ("NOP"@, Seq::empty()) }
    else if f == 0x00 { ("SLL"@, j3(rd, rt, sh)) }
    else if f == 0x02 { ("SRL"@, j3(rd, rt, sh)) }
    else if f == 0x03 { ("SRA"@, j3(rd, rt, sh)) }
    else if f == 0x04 { ("SLLV"@, j3(rd, rt, rs)) }
    else if f == 0x06 { ("SRLV"@, j3(rd, rt, rs)) }
    else if f == 0x07 { ("SRAV"@, j3(rd, rt, rs)) }
    else if f == 0x08 { ("JR"@, rs) }
    else if f == 0x09 { ("JALR"@, j2(rd, rs)) }
    else if f == 0x0C { ("SYSCALL"@, code) }
    else if f == 0x0D { ("BREAK"@, code) }
    else if f == 0x10 { ("MFHI"@, rd) }
    else if f == 0x11 { ("MTHI"@, rs) }
    else if f == 0x12 { ("MFLO"@, rd) }
    else if f == 0x13 { ("MTLO"@, rs) }
    else if f == 0x18 { ("MULT"@, j2(rs, rt)) }
    else if f == 0x19 { ("MULTU"@, j2(rs, rt)) }
    else if f == 0x1A { ("DIV"@, j2(rs, rt)) }
    else if f == 0x1B { ("DIVU"@, j2(rs, rt)) }
    else if f == 0x20 { ("ADD"@, j3(rd, rs, rt)) }
    else if f == 0x21 { ("ADDU"@, j3(rd, rs, rt)) }
    else if f == 0x22 { ("SUB"@, j3(rd, rs, rt)) }
    else if f == 0x23 { ("SUBU"@, j3(rd, rs, rt)) }
    else if f == 0x24 { ("AND"@, j3(rd, rs, rt)) }
    else if f == 0x25 { ("OR"@, j3(rd, rs, rt)) }
    else if f == 0x26 { ("XOR"@, j3(rd, rs, rt)) }
    else if f == 0x27 { ("NOR"@, j3(rd, rs, rt)) }
    else if f == 0x2A { ("SLT"@, j3(rd, rs, rt)) }
    else if f == 0x2B { ("SLTU"@, j3(rd, rs, rt)) }
    else { ("SPECIAL 0x"@ + hex_fixed(f as nat, 2), rs + ","@ + rt + ","@ + rd) }
}

/// The (mnemonic, operands) text of a non-SPECIAL word at `addr`.
pub open spec fn mips_other_text(w: u32, addr: u32) -> (Seq<char>, Seq<char>) {
    let op = op_of(w);
    let rs = rn(rs_of(w));
    let rt = rn(rt_of(w));
    let bt = "0x"@ + hex_fixed(branch_target_of(w, addr) as nat, 8);
    let jt = "0x"@ + hex_fixed(jump_target_of(w, addr) as nat, 8);
    let si = dec_int(simm_of(w));
    let ui = hex_0x(imm_of(w) as nat);
    let mem = mem_operand(w);
    if op == 0x01 {
        let r = rt_of(w);
        if r == 0x00 { ("BLTZ"@, j2(rs, bt)) }
        else if r == 0x01 { ("BGEZ"@, j2(rs, bt)) }
        else if r == 0x02 { ("BLTZL"@, j2(rs, bt)) }
        else if r == 0x03 { ("BGEZL"@, j2(rs, bt)) }
        else if r == 0x10 { ("BLTZAL"@, j2(rs, bt)) }
        else if r == 0x11 { ("BGEZAL"@, j2(rs, bt)) }
        else { ("REGIMM"@, "rt="@ + dec_nat(r as nat) + ", "@ + rs) }
    }
    else if op == 0x02 { ("J"@, jt) }
    else if op == 0x03 { ("JAL"@, jt) }
    else if op == 0x04 { ("BEQ"@, j3(rs, rt, bt)) }
    else if op == 0x05 { ("BNE"@, j3(rs, rt, bt)) }
    else if op == 0x06 { ("BLEZ"@, j2(rs, bt)) }
    else if op == 0x07 { ("BGTZ"@, j2(rs, bt)) }
    else if op == 0x08 { ("ADDI"@, j3(rt, rs, si)) }
    else if op == 0x09 { ("ADDIU"@, j3(rt, rs, si)) }
    else if op == 0x0A { ("SLTI"@, j3(rt, rs, si)) }
    else if op == 0x0B { ("SLTIU"@, j3(rt, rs, si)) }
    else if op == 0x0C { ("ANDI"@, j3(rt, rs, ui)) }
    else if op == 0x0D { ("ORI"@, j3(rt, rs, ui)) }
    else if op == 0x0E { ("XORI"@, j3(rt, rs, ui)) }
    else if op == 0x0F { ("LUI"@, j2(rt, ui)) }
    else if op == 0x10 {
        if rs_of(w) == 0 { ("MFC0"@, rn(rd_of(w)) + ", $"@ + dec_nat(rt_of(w) as nat)) }
        else if rs_of(w) == 4 { ("MTC0"@, rn(rd_of(w)) + ", $"@ + dec_nat(rt_of(w) as nat)) }
        else { ("COP0"@, cop_fields(w)) }
    }
    else if op == 0x14 { ("BEQL"@, j3(rs, rt, bt)) }
    else if op == 0x15 { ("BNEL"@, j3(rs, rt, bt)) }
    else if op == 0x20 { ("LB"@, j2(rt, mem)) }
    else if op == 0x21 { ("LH"@, j2(rt, mem)) }
    else if op == 0x22 { ("LWL"@, j2(rt, mem)) }
    else if op == 0x23 { ("LW"@, j2(rt, mem)) }
    else if op == 0x24 { ("LBU"@, j2(rt, mem)) }
    else if op == 0x25 { ("LHU"@, j2(rt, mem)) }
    else if op == 0x26 { ("LWR"@, j2(rt, mem)) }
    else if op == 0x28 { ("SB"@, j2(rt, mem)) }
    else if op == 0x29 { ("SH"@, j2(rt, mem)) }
    else if op == 0x2A { ("SWL"@, j2(rt, mem)) }
    else if op == 0x2B { ("SW"@, j2(rt, mem)) }
    else if op == 0x2E { ("SWR"@, j2(rt, mem)) }
    else if op == 0x2F { ("CACHE"@, j2(dec_nat(rt_of(w) as nat), mem)) }
    else if op == 0x30 { ("LL"@, j2(rt, mem)) }
    else if op == 0x31 { ("LWC1"@, j2("$f"@ + dec_nat(rt_of(w) as nat), mem)) }
    else if op == 0x38 { ("SC"@, j2(rt, mem)) }
    else if op == 0x39 { ("SWC1"@, j2("$f"@ + dec_nat(rt_of(w) as nat), mem)) }
    else if op == 0x11 || op == 0x12 || op == 0x13 { ("COP"@ + dec_nat((op - 16) as nat), cop_fields(w)) }
    else { (".word"@, "0x"@ + hex_fixed(w as nat, 8) + " ; unknown opcode 0x"@ + hex_fixed(op as nat, 2)) }
}

/// The (mnemonic, operands) text of the word `w` at `addr`.
pub open spec fn mips_text(w: u32, addr: u32) -> (Seq<char>, Seq<char>) {
    if op_of(w) == 0 { mips_special_text(w) } else { mips_other_text(w, addr) }
}

/// In the section listing, a SPECIAL register-register ALU word (funct
/// 0x20..0x27, 0x2A, 0x2B) reads `rd, rs, rt`, shifts by a register read
/// `rd, rt, rs`, and multiply/divide read `rs, rt`, where rd, rs and rt are
/// bits 15..11, 25..21 and 20..16 of the word.
pub proof fn listing_register_operands(w: u32, addr: u32)
    requires
        (w >> 26u32) & 0x3Fu32 == 0,
    ensures
        ({
            let f = w & 0x3Fu32;
            let d = reg_name(((w >> 11u32) & 0x1Fu32) as int);
            let s = reg_name(((w >> 21u32) & 0x1Fu32) as int);
            let t = reg_name(((w >> 16u32) & 0x1Fu32) as int);
            let txt = mips_text(w, addr);
            &&& (0x20 <= f <= 0x27 || f == 0x2A || f == 0x2B) ==> txt.1 == d + ", "@ + s + ", "@ + t
            &&& (f == 0x04 || f == 0x06 || f == 0x07) ==> txt.1 == d + ", "@ + t + ", "@ + s
            &&& (0x18 <= f <= 0x1B) ==> txt.1 == s + ", "@ + t
            &&& f == 0x22 ==> txt.0 == "SUB"@
            &&& f == 0x23 ==> txt.0 == "SUBU"@
        }),
{
    crate::ps1_disasm::lemma_funct_nonzero(w);
}

/// In the section listing, `LW`/`SW` read `rt, simm(rs)` and `BEQ`/`BNE`
/// read `rs, rt, target`, with rt, rs the registers of bits 20..16 and
/// 25..21 and simm the sign-extended low 16 bits; `J`/`JAL` show a target
/// whose top four bits are those of `addr + 4` and whose low 28 bits are the
/// 26-bit field times four.
pub proof fn listing_memory_and_jumps(w: u32, addr: u32)
    requires
        addr + 4 <= u32::MAX,
    ensures
        ({
            let op = (w >> 26u32) & 0x3Fu32;
            let s = reg_name(((w >> 21u32) & 0x1Fu32) as int);
            let t = reg_name(((w >> 16u32) & 0x1Fu32) as int);
            let imm = (w & 0xFFFFu32) as int;
            let simm = if imm < 0x8000 { imm } else { imm - 0x10000 };
            let txt = mips_text(w, addr);
            let jt = jump_target_of(w, addr);
            &&& op == 0x23 ==> txt == ("LW"@, t + ", "@ + (dec_int(simm) + "("@ + s + ")"@))
            &&& op == 0x2B ==> txt == ("SW"@, t + ", "@ + (dec_int(simm) + "("@ + s + ")"@))
            &&& op == 0x04 ==> txt.0 == "BEQ"@ && txt.1 == s + ", "@ + t + ", "@ + ("0x"@ + hex_fixed(branch_target_of(w, addr) as nat, 8))
            &&& (op == 2 || op == 3) ==> txt.1 == "0x"@ + hex_fixed(jt as nat, 8)
                && jt & 0xF000_0000u32 == ((addr + 4) as u32) & 0xF000_0000u32
                && jt & 0x0FFF_FFFFu32 == (w & 0x03FF_FFFFu32) << 2u32
        }),
{
    crate::cfg::lemma_region_jump(((addr + 4) as u32), w, jump_target_of(w, addr));
}

/// Mnemonics whose instruction is followed by a branch delay slot: every
/// jump and branch the decoder names, the likely forms included.
pub open spec fn delay_mnemonic(m: Seq<char>) -> bool {
    ||| m == "J"@ ||| m == "JAL"@ ||| m == "JR"@ ||| m == "JALR"@ ||| m == "BEQ"@ ||| m == "BNE"@
    ||| m == "BLEZ"@ ||| m == "BGTZ"@ ||| m == "BLTZ"@ ||| m == "BGEZ"@ ||| m == "BLTZAL"@
    ||| m == "BGEZAL"@ ||| m == "BEQL"@ ||| m == "BNEL"@ ||| m == "BLTZL"@ ||| m == "BGEZL"@
}

/// One listing line: address, word, mnemonic, operands and the delay-slot note.
pub open spec fn mips_line(w: u32, addr: u32) -> Seq<char> {
    let (m, o) = mips_text(w, addr);
    hex_fixed(addr as nat, 8) + "  "@ + hex_fixed(w as nat, 8) + "  "@ + m + " "@ + o
        + (if delay_mnemonic(m) { " ; delay slot follows"@ } else { Seq::empty() }) + "\n"@
}

/// Number of words the listing covers: at most 1000.
pub open spec fn listing_count(len: nat) -> nat {
    if len / 4 < 1000 { len / 4 } else { 1000 }
}

/// The listing lines of the first `n` words.
pub open spec fn mips_lines(data: Seq<u8>, start: u32, is_le: bool, n: nat) -> Seq<char>
    decreases n,
{
    if n == 0 {
        Seq::empty()
    } else {
        let k = (n - 1) as nat;
        mips_lines(data, start, is_le, k) + mips_line(word_at(data, (4 * k) as int, is_le), (start + 4 * k) as u32)
    }
}

/// No address of the listing overflows, and J/JAL words leave room for `addr + 4`.
pub open spec fn listing_fits(data: Seq<u8>, start: u32, is_le: bool) -> bool {
    forall|k: int| 0 <= k < listing_count(data.len()) ==> {
        &&& start + 4 * k <= u32::MAX
        &&& (op_of(#[trigger] word_at(data, 4 * k, is_le)) == 2 || op_of(word_at(data, 4 * k, is_le)) == 3)
            ==> start + 4 * k + 4 <= u32::MAX
    }
}

fn join2(a: String, b: String) -> (r: String)
    ensures
        r@ == j2(a@, b@),
{
    let mut s = a;
    push_str(&mut s, ", ");
    push_str(&mut s, b.as_str());
    s
}

fn join3(a: String, b: String, c: String) -> (r: String)
    ensures
        r@ == j3(a@, b@, c@),
{
    let mut s = a;
    push_str(&mut s, ", ");
    push_str(&mut s, b.as_str());
    push_str(&mut s, ", ");
    push_str(&mut s, c.as_str());
    s
}

fn dec_u32(v: u32) -> (r: String)
    ensures
        r@ == dec_nat(v as nat),
{
    let mut s = String::new();
    push_dec_u64(&mut s, v as u64);
    assert(s@ =~= dec_nat(v as nat));
    s
}

fn dec_i32(v: i32) -> (r: String)
    ensures
        r@ == dec_int(v as int),
{
    let mut s = String::new();
    push_dec_i64(&mut s, v as i64);
    assert(s@ =~= dec_int(v as int));
    s
}

fn hex_min_0x(v: u32) -> (r: String)
    ensures
        r@ == hex_0x(v as nat),
{
    let mut s = owned("0x");
    push_hex_min(&mut s, v);
    proof { reveal_strlit("0x"); }
    assert(s@ =~= hex_0x(v as nat));
    s
}

fn hex8_text(v: u32) -> (r: String)
    ensures
        r@ == "0x"@ + hex_fixed(v as nat, 8),
{
    let mut s = owned("0x");
    push_hex_fixed(&mut s, v, 8);
    s
}

fn mem_op(w: u32) -> (r: String)
    ensures
        r@ == mem_operand(w),
{
    proof { lemma_fields_bounded(w); }
    let mut s = dec_i32(simm(w));
    push_str(&mut s, "(");
    let b = reg((w >> 21) & 0x1F);
    push_str(&mut s, b.as_str());
    push_str(&mut s, ")");
    s
}

fn cop_text(w: u32) -> (r: String)
    ensures
        r@ == cop_fields(w),
{
    proof { lemma_fields_bounded(w); }
    let mut s = owned("rs=");
    push_dec_u64(&mut s, ((w >> 21) & 0x1F) as u64);
    push_str(&mut s, ", rt=");
    push_dec_u64(&mut s, ((w >> 16) & 0x1F) as u64);
    push_str(&mut s, ", rd=");
    push_dec_u64(&mut s, ((w >> 11) & 0x1F) as u64);
    s
}

fn special_text(w: u32) -> (r: (String, String))
    requires
        op_of(w) == 0,
    ensures
        (r.0@, r.1@) == mips_special_text(w),
{
    proof { lemma_fields_bounded(w); }
    let rs: u32 = (w >> 21) & 0x1F;
    let rt: u32 = (w >> 16) & 0x1F;
    let rd: u32 = (w >> 11) & 0x1F;
    let sh: u32 = (w >> 6) & 0x1F;
    let f: u32 = w & 0x3F;
    if w == 0 { (owned("NOP"), String::new()) }
    else if f == 0x00 { (owned("SLL"), join3(reg(rd), reg(rt), dec_u32(sh))) }
    else if f == 0x02 { (owned("SRL"), join3(reg(rd), reg(rt), dec_u32(sh))) }
    else if f == 0x03 { (owned("SRA"), join3(reg(rd), reg(rt), dec_u32(sh))) }
    else if f == 0x04 { (owned("SLLV"), join3(reg(rd), reg(rt), reg(rs))) }
    else if f == 0x06 { (owned("SRLV"), join3(reg(rd), reg(rt), reg(rs))) }
    else if f == 0x07 { (owned("SRAV"), join3(reg(rd), reg(rt), reg(rs))) }
    else if f == 0x08 { (owned("JR"), reg(rs)) }
    else if f == 0x09 { (owned("JALR"), join2(reg(rd), reg(rs))) }
    else if f == 0x0C { (owned("SYSCALL"), hex_min_0x(w & 0xFFFFF)) }
    else if f == 0x0D { (owned("BREAK"), hex_min_0x(w & 0xFFFFF)) }
    else if f == 0x10 { (owned("MFHI"), reg(rd)) }
    else if f == 0x11 { (owned("MTHI"), reg(rs)) }
    else if f == 0x12 { (owned("MFLO"), reg(rd)) }
    else if f == 0x13 { (owned("MTLO"), reg(rs)) }
    else if f == 0x18 { (owned("MULT"), join2(reg(rs), reg(rt))) }
    else if f == 0x19 { (owned("MULTU"), join2(reg(rs), reg(rt))) }
    else if f == 0x1A { (owned("DIV"), join2(reg(rs), reg(rt))) }
    else if f == 0x1B { (owned("DIVU"), join2(reg(rs), reg(rt))) }
    else if f == 0x20 { (owned("ADD"), join3(reg(rd), reg(rs), reg(rt))) }
    else if f == 0x21 { (owned("ADDU"), join3(reg(rd), reg(rs), reg(rt))) }
    else if f == 0x22 { (owned("SUB"), join3(reg(rd), reg(rs), reg(rt))) }
    else if f == 0x23 { (owned("SUBU"), join3(reg(rd), reg(rs), reg(rt))) }
    else if f == 0x24 { (owned("AND"), join3(reg(rd), reg(rs), reg(rt))) }
    else if f == 0x25 { (owned("OR"), join3(reg(rd), reg(rs), reg(rt))) }
    else if f == 0x26 { (owned("XOR"), join3(reg(rd), reg(rs), reg(rt))) }
    else if f == 0x27 { (owned("NOR"), join3(reg(rd), reg(rs), reg(rt))) }
    else if f == 0x2A { (owned("SLT"), join3(reg(rd), reg(rs), reg(rt))) }
    else if f == 0x2B { (owned("SLTU"), join3(reg(rd), reg(rs), reg(rt))) }
    else {
        let mut m = owned("SPECIAL 0x");
        push_hex_fixed(&mut m, f, 2);
        let mut o = reg(rs);
        push_str(&mut o, ",");
        let b = reg(rt);
        push_str(&mut o, b.as_str());
        push_str(&mut o, ",");
        let c = reg(rd);
        push_str(&mut o, c.as_str());
        (m, o)
    }
}

fn other_text(w: u32, addr: u32) -> (r: (String, String))
    requires
        op_of(w) != 0,
        (op_of(w) == 2 || op_of(w) == 3) ==> addr + 4 <= u32::MAX,
    ensures
        (r.0@, r.1@) == mips_other_text(w, addr),
{
    proof { lemma_fields_bounded(w); }
    let op: u32 = (w >> 26) & 0x3F;
    let rs: u32 = (w >> 21) & 0x1F;
    let rt: u32 = (w >> 16) & 0x1F;
    let rd: u32 = (w >> 11) & 0x1F;
    let imm: u32 = w & 0xFFFF;
    if op == 0x01 {
        let bt = hex8_text(branch_target(w, addr));
        if rt == 0x00 { (owned("BLTZ"), join2(reg(rs), bt)) }
        else if rt == 0x01 { (owned("BGEZ"), join2(reg(rs), bt)) }
        else if rt == 0x02 { (owned("BLTZL"), join2(reg(rs), bt)) }
        else if rt == 0x03 { (owned("BGEZL"), join2(reg(rs), bt)) }
        else if rt == 0x10 { (owned("BLTZAL"), join2(reg(rs), bt)) }
        else if rt == 0x11 { (owned("BGEZAL"), join2(reg(rs), bt)) }
        else {
            let mut o = owned("rt=");
            push_dec_u64(&mut o, rt as u64);
            push_str(&mut o, ", ");
            let a = reg(rs);
            push_str(&mut o, a.as_str());
            (owned("REGIMM"), o)
        }
    }
    else if op == 0x02 { (owned("J"), hex8_text(jump_target(w, addr))) }
    else if op == 0x03 { (owned("JAL"), hex8_text(jump_target(w, addr))) }
    else if op == 0x04 { (owned("BEQ"), join3(reg(rs), reg(rt), hex8_text(branch_target(w, addr)))) }
    else if op == 0x05 { (owned("BNE"), join3(reg(rs), reg(rt), hex8_text(branch_target(w, addr)))) }
    else if op == 0x06 { (owned("BLEZ"), join2(reg(rs), hex8_text(branch_target(w, addr)))) }
    else if op == 0x07 { (owned("BGTZ"), join2(reg(rs), hex8_text(branch_target(w, addr)))) }
    else if op == 0x08 { (owned("ADDI"), join3(reg(rt), reg(rs), dec_i32(simm(w)))) }
    else if op == 0x09 { (owned("ADDIU"), join3(reg(rt), reg(rs), dec_i32(simm(w)))) }
    else if op == 0x0A { (owned("SLTI"), join3(reg(rt), reg(rs), dec_i32(simm(w)))) }
    else if op == 0x0B { (owned("SLTIU"), join3(reg(rt), reg(rs), dec_i32(simm(w)))) }
    else if op == 0x0C { (owned("ANDI"), join3(reg(rt), reg(rs), hex_min_0x(imm))) }
    else if op == 0x0D { (owned("ORI"), join3(reg(rt), reg(rs), hex_min_0x(imm))) }
    else if op == 0x0E { (owned("XORI"), join3(reg(rt), reg(rs), hex_min_0x(imm))) }
    else if op == 0x0F { (owned("LUI"), join2(reg(rt), hex_min_0x(imm))) }
    else if op == 0x10 {
        if rs == 0 || rs == 4 {
            let mut o = reg(rd);
            push_str(&mut o, ", $");
            push_dec_u64(&mut o, rt as u64);
            (if rs == 0 { owned("MFC0") } else { owned("MTC0") }, o)
        } else {
            (owned("COP0"), cop_text(w))
        }
    }
    else if op == 0x14 { (owned("BEQL"), join3(reg(rs), reg(rt), hex8_text(branch_target(w, addr)))) }
    else if op == 0x15 { (owned("BNEL"), join3(reg(rs), reg(rt), hex8_text(branch_target(w, addr)))) }
    else if op == 0x20 { (owned("LB"), join2(reg(rt), mem_op(w))) }
    else if op == 0x21 { (owned("LH"), join2(reg(rt), mem_op(w))) }
    else if op == 0x22 { (owned("LWL"), join2(reg(rt), mem_op(w))) }
    else if op == 0x23 { (owned("LW"), join2(reg(rt), mem_op(w))) }
    else if op == 0x24 { (owned("LBU"), join2(reg(rt), mem_op(w))) }
    else if op == 0x25 { (owned("LHU"), join2(reg(rt), mem_op(w))) }
    else if op == 0x26 { (owned("LWR"), join2(reg(rt), mem_op(w))) }
    else if op == 0x28 { (owned("SB"), join2(reg(rt), mem_op(w))) }
    else if op == 0x29 { (owned("SH"), join2(reg(rt), mem_op(w))) }
    else if op == 0x2A { (owned("SWL"), join2(reg(rt), mem_op(w))) }
    else if op == 0x2B { (owned("SW"), join2(reg(rt), mem_op(w))) }
    else if op == 0x2E { (owned("SWR"), join2(reg(rt), mem_op(w))) }
    else if op == 0x2F { (owned("CACHE"), join2(dec_u32(rt), mem_op(w))) }
    else if op == 0x30 { (owned("LL"), join2(reg(rt), mem_op(w))) }
    else if op == 0x31 { (owned("LWC1"), join2(fpr(rt), mem_op(w))) }
    else if op == 0x38 { (owned("SC"), join2(reg(rt), mem_op(w))) }
    else if op == 0x39 { (owned("SWC1"), join2(fpr(rt), mem_op(w))) }
    else if op == 0x11 || op == 0x12 || op == 0x13 {
        let mut m = owned("COP");
        push_dec_u64(&mut m, (op - 16) as u64);
        (m, cop_text(w))
    }
    else {
        let mut o = hex8_text(w);
        push_str(&mut o, " ; unknown opcode 0x");
        push_hex_fixed(&mut o, op, 2);
        (owned(".word"), o)
    }
}

fn fpr(r: u32) -> (s: String)
    ensures
        s@ == "$f"@ + dec_nat(r as nat),
{
    let mut s = owned("$f");
    push_dec_u64(&mut s, r as u64);
    s
}

fn is_delay_mnemonic(m: &String) -> (b: bool)
    ensures
        b == delay_mnemonic(m@),
{
    *m == owned("J") || *m == owned("JAL") || *m == owned("JR") || *m == owned("JALR") || *m == owned("BEQ")
        || *m == owned("BNE") || *m == owned("BLEZ") || *m == owned("BGTZ") || *m == owned("BLTZ")
        || *m == owned("BGEZ") || *m == owned("BLTZAL") || *m == owned("BGEZAL") || *m == owned("BEQL")
        || *m == owned("BNEL") || *m == owned("BLTZL") || *m == owned("BGEZL")
}

fn emit_mips_line(output: &mut String, instr: u32, addr: u32)
    requires
        (op_of(instr) == 2 || op_of(instr) == 3) ==> addr + 4 <= u32::MAX,
    ensures
        final(output)@ == old(output)@ + mips_line(instr, addr),
{
    let (mnemonic, operand) = if (instr >> 26) & 0x3F == 0 { special_text(instr) } else { other_text(instr, addr) };
    push_hex_fixed(output, addr, 8);
    push_str(output, "  ");
    push_hex_fixed(output, instr, 8);
    push_str(output, "  ");
    push_str(output, mnemonic.as_str());
    push_str(output, " ");
    push_str(output, operand.as_str());
    if is_delay_mnemonic(&mnemonic) {
        push_str(output, " ; delay slot follows");
    }
    push_str(output, "\n");
    assert(output@ =~= old(output)@ + mips_line(instr, addr));
}

/// Disassemble up to 1000 words of a MIPS section into a text listing: a
/// `Disassembly: NAME (N bytes)` header, a blank line, then one line per word
/// (`AAAAAAAA  WWWWWWWW  MNEMONIC operands`, branches and jumps tagged with
/// `; delay slot follows`). Empty input is an error.
pub fn disassemble_mips_section(data: Vec<u8>, section_name: String, start_addr: u32, is_little_endian: bool) -> (r: Result<String, String>)
    requires
        listing_fits(data@, start_addr, is_little_endian),
    ensures
        data.len() == 0 <==> r is Err,
        r matches Err(e) ==> e@ == "No data to disassemble"@,
        r matches Ok(out) ==> out@ == "Disassembly: "@ + section_name@ + " ("@ + dec_nat(data.len() as nat) + " bytes)\n\n"@
            + mips_lines(data@, start_addr, is_little_endian, listing_count(data.len() as nat)),
{
    if data.len() == 0 {
        return Err(owned("No data to disassemble"));
    }
    let mut output = owned("Disassembly: ");
    push_str(&mut output, section_name.as_str());
    push_str(&mut output, " (");
    push_dec_u64(&mut output, data.len() as u64);
    push_str(&mut output, " bytes)\n\n");
    let ghost head = output@;
    let n: usize = if data.len() / 4 < 1000 { data.len() / 4 } else { 1000 };
    let mut k: usize = 0;
    while k < n
        invariant
            n == listing_count(data.len() as nat),
            n * 4 <= data.len(),
            k <= n,
            listing_fits(data@, start_addr, is_little_endian),
            output@ == head + mips_lines(data@, start_addr, is_little_endian, k as nat),
        decreases n - k,
    {
        let offset: usize = k * 4;
        let instr: u32 = crate::cfg::read_word(&data, offset, is_little_endian);
        assert(instr == word_at(data@, 4 * k, is_little_endian));
        assert(start_addr + 4 * k <= u32::MAX);
        let addr: u32 = start_addr + (offset as u32);
        emit_mips_line(&mut output, instr, addr);
        k = k + 1;
    }
    Ok(output)
}


// ---------------------------------------------------------------------------
// Format identification
// ---------------------------------------------------------------------------

/// `pat` occurs in `h` at `off`.
pub open spec fn bytes_at(h: Seq<u8>, off: int, pat: Seq<u8>) -> bool {
    0 <= off && off + pat.len() <= h.len() && h.subrange(off, off + pat.len()) == pat
}

/// ASCII letter or digit.
pub open spec fn ascii_alnum(b: u8) -> bool {
    (0x30 <= b <= 0x39) || (0x41 <= b <= 0x5A) || (0x61 <= b <= 0x7A)
}

/// An NDS title byte: NUL, letter, digit or `_`.
pub open spec fn nds_title_byte(b: u8) -> bool { b == 0 || ascii_alnum(b) || b == 0x5F }

/// A SNES title byte: NUL, space, letter or digit.
pub open spec fn snes_title_byte(b: u8) -> bool { b == 0 || b == 0x20 || ascii_alnum(b) }

/// The SNES memory-map bytes that mark an internal ROM header.
pub open spec fn snes_rom_type(t: u8) -> bool {
    t == 0x20 || t == 0x30 || t == 0x31 || t == 0x32 || t == 0x33 || t == 0x35 || t == 0x3A || t == 0x40
        || t == 0x42 || t == 0x43 || t == 0x45 || t == 0x4A
}

/// A SNES internal header (title at `title`, memory map at `title + 0x15`).
pub open spec fn snes_header_at(h: Seq<u8>, title: int) -> bool {
    (forall|i: int| title <= i < title + 16 ==> snes_title_byte(#[trigger] h[i])) && snes_rom_type(h[title + 0x15])
}

/// An NDS header: printable title and a power-of-two ROM size up to 512 MiB.
pub open spec fn nds_header(h: Seq<u8>) -> bool {
    let size = crate::ps4ps5::le32(h, 0x80);
    &&& forall|i: int| 0 <= i < 12 ==> nds_title_byte(#[trigger] h[i])
    &&& size > 0 && (size & ((size - 1) as u32)) == 0
    &&& size <= 0x2000_0000
}

pub open spec fn pat_elf() -> Seq<u8> { seq![0x7Fu8, 0x45u8, 0x4Cu8, 0x46u8] }
pub open spec fn pat_psx() -> Seq<u8> { seq![0x50u8, 0x53u8, 0x2Du8, 0x58u8, 0x20u8, 0x45u8, 0x58u8, 0x45u8] }
pub open spec fn pat_xbeh() -> Seq<u8> { seq![0x58u8, 0x42u8, 0x45u8, 0x48u8] }
pub open spec fn pat_xex() -> Seq<u8> { seq![0x58u8, 0x45u8, 0x58u8] }
pub open spec fn pat_sce() -> Seq<u8> { seq![0x53u8, 0x43u8, 0x45u8] }
pub open spec fn pat_ecs() -> Seq<u8> { seq![0x45u8, 0x43u8, 0x53u8] }
pub open spec fn pat_chd() -> Seq<u8> { seq![0x4Du8, 0x43u8, 0x6Fu8, 0x6Du8, 0x70u8, 0x72u8, 0x48u8, 0x44u8] }
pub open spec fn pat_cd001() -> Seq<u8> { seq![0x43u8, 0x44u8, 0x30u8, 0x30u8, 0x31u8] }
pub open spec fn pat_nes() -> Seq<u8> { seq![0x4Eu8, 0x45u8, 0x53u8, 0x1Au8] }
pub open spec fn pat_n64_z() -> Seq<u8> { seq![0x80u8, 0x37u8, 0x12u8, 0x40u8] }
pub open spec fn pat_n64_v() -> Seq<u8> { seq![0x37u8, 0x80u8, 0x40u8, 0x12u8] }
pub open spec fn pat_n64_n() -> Seq<u8> { seq![0x40u8, 0x12u8, 0x37u8, 0x80u8] }
/// The Nintendo logo bitmap of a GameBoy header (0x104..0x134).
pub open spec fn pat_gb_logo() -> Seq<u8> { seq![0xCEu8, 0xEDu8, 0x66u8, 0x66u8, 0xCCu8, 0x0Du8, 0x00u8, 0x0Bu8, 0x03u8, 0x73u8, 0x00u8, 0x83u8, 0x00u8, 0x0Cu8, 0x00u8, 0x0Du8, 0x00u8, 0x08u8, 0x11u8, 0x1Fu8, 0x88u8, 0x89u8, 0x00u8, 0x0Eu8, 0xDCu8, 0xCCu8, 0x6Eu8, 0xE6u8, 0xDDu8, 0xDDu8, 0xD9u8, 0x99u8, 0xBBu8, 0xBBu8, 0x67u8, 0x63u8, 0x6Eu8, 0x0Eu8, 0xECu8, 0xCCu8, 0xDDu8, 0xDCu8, 0x99u8, 0x9Fu8, 0xBBu8, 0xB9u8, 0x33u8, 0x3Eu8] }
/// The first 16 bytes of the GameBoy Advance logo (0x04..0x14).
pub open spec fn pat_gba_logo() -> Seq<u8> { seq![0x24u8, 0xFFu8, 0xAEu8, 0x51u8, 0x69u8, 0x9Au8, 0xA2u8, 0x21u8, 0x3Du8, 0x84u8, 0x82u8, 0x0Cu8, 0x7Fu8, 0x31u8, 0xA4u8, 0xF2u8] }

/// The format name `identify_data` gives a header.
pub open spec fn spec_identify(h: Seq<u8>) -> Seq<char> {
    if h.len() >= 5 && bytes_at(h, 0, pat_elf()) {
        if h[4] == 1 { if h[5] == 1 { "elf32-le"@ } else { "elf32-be"@ } }
        else if h[4] == 2 { if h[5] == 1 { "elf64-le"@ } else { "elf64-be"@ } }
        else { "elf-unknown"@ }
    } else if bytes_at(h, 0, pat_psx()) { "psx-exe"@ }
    else if bytes_at(h, 0, pat_xbeh()) { "xbe"@ }
    else if h.len() >= 4 && bytes_at(h, 0, pat_xex()) && 0x30 <= h[3] <= 0x32 { "xex"@ }
    else if h.len() >= 4 && ((bytes_at(h, 0, pat_sce()) && h[3] == 0) || (h[0] == 0 && bytes_at(h, 1, pat_ecs()))) { "self"@ }
    else if bytes_at(h, 0, pat_chd()) { "chd"@ }
    else if h.len() >= 0x150 && bytes_at(h, 0x104, pat_gb_logo()) { "gb-rom"@ }
    else if crate::ps4ps5::spec_eboot_magic(h) {
        if crate::ps4ps5::spec_is_fself(h) { "ps4-self"@ } else { "ps4-encrypted"@ }
    }
    else if h.len() >= 12 && h[0] == 0 && (forall|i: int| 1 <= i < 12 ==> #[trigger] h[i] == 0xFF) && h[12] == 0 { "ps1-disc"@ }
    else if h.len() > 0x8005 && bytes_at(h, 0x8001, pat_cd001()) { "ps1-disc"@ }
    else if bytes_at(h, 0, pat_nes()) { "nes-rom"@ }
    else if h.len() > 0xB5 && h[0xB5] == 0x96 && bytes_at(h, 4, pat_gba_logo()) { "gba-rom"@ }
    else if bytes_at(h, 0, pat_n64_z()) || bytes_at(h, 0, pat_n64_v()) || bytes_at(h, 0, pat_n64_n()) { "n64-rom"@ }
    else if h.len() >= 0x84 && nds_header(h) { "nds-rom"@ }
    else if h.len() > 0xFFD6 && snes_header_at(h, 0xFFC0) { "snes-rom"@ }
    else if h.len() > 0x101D6 && snes_header_at(h, 0x101C0) { "snes-rom"@ }
    else { "raw"@ }
}

/// The inputs on which the checks index past the end: a five-byte ELF32/64
/// header, or a twelve-byte CD-ROM sync pattern.
pub open spec fn identify_indexes_past_end(h: Seq<u8>) -> bool {
    ||| h.len() == 5 && bytes_at(h, 0, pat_elf()) && (h[4] == 1 || h[4] == 2)
    ||| h.len() == 12 && h[0] == 0 && (forall|i: int| 1 <= i < 12 ==> #[trigger] h[i] == 0xFF)
}

fn match_at(h: &[u8], off: usize, pat: &Vec<u8>) -> (b: bool)
    ensures
        b == bytes_at(h@, off as int, pat@),
{
    if off > h.len() || h.len() - off < pat.len() {
        return false;
    }
    let mut i: usize = 0;
    while i < pat.len()
        invariant
            off + pat.len() <= h.len(),
            i <= pat.len(),
            forall|j: int| 0 <= j < i ==> h@[off + j] == pat@[j],
        decreases pat.len() - i,
    {
        if h[off + i] != pat[i] {
            assert(h@.subrange(off as int, off + pat.len())[i as int] != pat@[i as int]);
            return false;
        }
        i = i + 1;
    }
    assert(h@.subrange(off as int, off + pat.len()) =~= pat@);
    true
}

fn is_alnum(b: u8) -> (r: bool)
    ensures
        r == ascii_alnum(b),
{
    (0x30 <= b && b <= 0x39) || (0x41 <= b && b <= 0x5A) || (0x61 <= b && b <= 0x7A)
}

fn snes_header_check(h: &[u8], title: usize) -> (r: bool)
    requires
        title + 0x16 <= h.len(),
    ensures
        r == snes_header_at(h@, title as int),
{
    let mut i: usize = title;
    while i < title + 16
        invariant
            title + 0x16 <= h.len(),
            title <= i <= title + 16,
            forall|j: int| title <= j < i ==> snes_title_byte(#[trigger] h@[j]),
        decreases title + 16 - i,
    {
        let c = h[i];
        if !(c == 0 || c == 0x20 || is_alnum(c)) {
            return false;
        }
        i = i + 1;
    }
    let t = h[title + 0x15];
    t == 0x20 || t == 0x30 || t == 0x31 || t == 0x32 || t == 0x33 || t == 0x35 || t == 0x3A || t == 0x40
        || t == 0x42 || t == 0x43 || t == 0x45 || t == 0x4A
}

fn nds_header_check(h: &[u8]) -> (r: bool)
    requires
        h.len() >= 0x84,
    ensures
        r == nds_header(h@),
{
    let mut i: usize = 0;
    let mut title_ok = true;
    while i < 12
        invariant
            h.len() >= 0x84,
            i <= 12,
            title_ok == (forall|j: int| 0 <= j < i ==> nds_title_byte(#[trigger] h@[j])),
        decreases 12 - i,
    {
        let c = h[i];
        if !(c == 0 || is_alnum(c) || c == 0x5F) {
            title_ok = false;
        }
        i = i + 1;
    }
    let size = crate::ps4ps5::ru32le(h, 0x80);
    let pow2 = size > 0 && (size & (size - 1)) == 0;
    title_ok && pow2 && size <= 0x2000_0000
}

/// Identify a file's format from its leading bytes: ELF (class and byte
/// order), PS-X EXE, Xbox XBE / XEX, SELF, CHD, GameBoy, PS4 eboot (fake or
/// retail), raw or ISO PlayStation disc, NES, GBA, N64, NDS and SNES ROMs;
/// anything else is `raw`.
pub fn identify_data(h: &[u8]) -> (r: String)
    requires
        !identify_indexes_past_end(h@),
    ensures
        r@ == spec_identify(h@),
{
    let elf = vec![0x7Fu8, 0x45u8, 0x4Cu8, 0x46u8];
    if h.len() >= 5 && match_at(h, 0, &elf) {
        if h[4] == 1 {
            return if h[5] == 1 { owned("elf32-le") } else { owned("elf32-be") };
        }
        if h[4] == 2 {
            return if h[5] == 1 { owned("elf64-le") } else { owned("elf64-be") };
        }
        return owned("elf-unknown");
    }
    let psx = vec![0x50u8, 0x53u8, 0x2Du8, 0x58u8, 0x20u8, 0x45u8, 0x58u8, 0x45u8];
    if match_at(h, 0, &psx) {
        return owned("psx-exe");
    }
    let xbeh = vec![0x58u8, 0x42u8, 0x45u8, 0x48u8];
    if match_at(h, 0, &xbeh) {
        return owned("xbe");
    }
    let xex = vec![0x58u8, 0x45u8, 0x58u8];
    if h.len() >= 4 && match_at(h, 0, &xex) && 0x30 <= h[3] && h[3] <= 0x32 {
        return owned("xex");
    }
    let sce = vec![0x53u8, 0x43u8, 0x45u8];
    let ecs = vec![0x45u8, 0x43u8, 0x53u8];
    if h.len() >= 4 && ((match_at(h, 0, &sce) && h[3] == 0) || (h[0] == 0 && match_at(h, 1, &ecs))) {
        return owned("self");
    }
    let chd = vec![0x4Du8, 0x43u8, 0x6Fu8, 0x6Du8, 0x70u8, 0x72u8, 0x48u8, 0x44u8];
    if match_at(h, 0, &chd) {
        return owned("chd");
    }
    let logo = vec![0xCEu8, 0xEDu8, 0x66u8, 0x66u8, 0xCCu8, 0x0Du8, 0x00u8, 0x0Bu8, 0x03u8, 0x73u8, 0x00u8, 0x83u8, 0x00u8, 0x0Cu8, 0x00u8, 0x0Du8, 0x00u8, 0x08u8, 0x11u8, 0x1Fu8, 0x88u8, 0x89u8, 0x00u8, 0x0Eu8, 0xDCu8, 0xCCu8, 0x6Eu8, 0xE6u8, 0xDDu8, 0xDDu8, 0xD9u8, 0x99u8, 0xBBu8, 0xBBu8, 0x67u8, 0x63u8, 0x6Eu8, 0x0Eu8, 0xECu8, 0xCCu8, 0xDDu8, 0xDCu8, 0x99u8, 0x9Fu8, 0xBBu8, 0xB9u8, 0x33u8, 0x3Eu8];
    if h.len() >= 0x150 && match_at(h, 0x104, &logo) {
        return owned("gb-rom");
    }
    if crate::ps4ps5::is_ps4_eboot_magic(h) {
        return if crate::ps4ps5::is_fself(h) { owned("ps4-self") } else { owned("ps4-encrypted") };
    }
    if h.len() >= 12 && h[0] == 0 {
        let mut i: usize = 1;
        let mut all_ff = true;
        while i < 12
            invariant
                h.len() >= 12,
                1 <= i <= 12,
                all_ff == (forall|j: int| 1 <= j < i ==> #[trigger] h@[j] == 0xFF),
            decreases 12 - i,
        {
            if h[i] != 0xFF {
                all_ff = false;
            }
            i = i + 1;
        }
        if all_ff && h[12] == 0 {
            return owned("ps1-disc");
        }
    }
    let cd = vec![0x43u8, 0x44u8, 0x30u8, 0x30u8, 0x31u8];
    if h.len() > 0x8005 && match_at(h, 0x8001, &cd) {
        return owned("ps1-disc");
    }
    let nes = vec![0x4Eu8, 0x45u8, 0x53u8, 0x1Au8];
    if match_at(h, 0, &nes) {
        return owned("nes-rom");
    }
    let gba = vec![0x24u8, 0xFFu8, 0xAEu8, 0x51u8, 0x69u8, 0x9Au8, 0xA2u8, 0x21u8, 0x3Du8, 0x84u8, 0x82u8, 0x0Cu8, 0x7Fu8, 0x31u8, 0xA4u8, 0xF2u8];
    if h.len() > 0xB5 && h[0xB5] == 0x96 && match_at(h, 4, &gba) {
        return owned("gba-rom");
    }
    let n64a = vec![0x80u8, 0x37u8, 0x12u8, 0x40u8];
    let n64b = vec![0x37u8, 0x80u8, 0x40u8, 0x12u8];
    let n64c = vec![0x40u8, 0x12u8, 0x37u8, 0x80u8];
    if match_at(h, 0, &n64a) || match_at(h, 0, &n64b) || match_at(h, 0, &n64c) {
        return owned("n64-rom");
    }
    if h.len() >= 0x84 && nds_header_check(h) {
        return owned("nds-rom");
    }
    if h.len() > 0xFFD6 && snes_header_check(h, 0xFFC0) {
        return owned("snes-rom");
    }
    if h.len() > 0x101D6 && snes_header_check(h, 0x101C0) {
        return owned("snes-rom");
    }
    owned("raw")
}


// ---------------------------------------------------------------------------
// ELF model
// ---------------------------------------------------------------------------

/// A section of an ELF image with its bytes.
#[derive(Debug, Clone)]
pub struct ElfSection {
    pub name: String,
    pub address: u32,
    pub size: u32,
    pub offset: u32,
    pub data: Vec<u8>,
    pub flags: u32,
}

/// A symbol-table entry.
#[derive(Debug, Clone)]
pub struct ElfSymbol {
    pub name: String,
    pub address: u32,
    pub size: u32,
    pub section: String,
}

/// One relocation: the absolute address it patches, the resolved symbol name
/// (empty when unnamed), the MIPS relocation type and the symbol index.
#[derive(Debug, Clone)]
pub struct Relocation {
    pub offset: u32,
    pub symbol_name: String,
    pub r_type: u32,
    pub symbol: u32,
}

/// A parsed ELF32 image.
#[derive(Debug, Clone)]
pub struct ElfFileInfo {
    pub filename: String,
    pub sections: Vec<ElfSection>,
    pub symbols: Vec<ElfSymbol>,
    pub entry_point: u32,
    pub file_size: u64,
    pub is_little_endian: bool,
    pub is_32bit: bool,
    pub relocations: Vec<Relocation>,
}

/// A discovered function: a named range `[start, end)` of code.
#[derive(Debug, Clone)]
pub struct FunctionEntry {
    pub name: String,
    pub start: u32,
    pub end: u32,
    pub size: u32,
}

/// A function entry as plain values: (name, start, end, size).
pub open spec fn fe_view(f: FunctionEntry) -> (Seq<char>, u32, u32, u32) {
    (f.name@, f.start, f.end, f.size)
}

/// `SHF_EXECINSTR` is set.
pub open spec fn is_exec(s: ElfSection) -> bool {
    s.flags & 4u32 != 0
}

/// Every executable section's address range fits in 32 bits.
pub open spec fn exec_sections_fit(secs: Seq<ElfSection>) -> bool {
    forall|i: int| 0 <= i < secs.len() && is_exec(#[trigger] secs[i]) ==> secs[i].address + secs[i].data@.len() <= u32::MAX
}

/// Word `k` of section `s` is a direct J (op 2) or JAL (op 3).
pub open spec fn is_direct(s: ElfSection, k: int, is_le: bool) -> bool {
    &&& 0 <= k && 4 * k + 4 <= s.data@.len()
    &&& (op_of(word_at(s.data@, 4 * k, is_le)) == 2 || op_of(word_at(s.data@, 4 * k, is_le)) == 3)
}

/// The target of the direct jump at word `k` of `s`.
pub open spec fn direct_target(s: ElfSection, k: int, is_le: bool) -> u32 {
    jump_target_of(word_at(s.data@, 4 * k, is_le), (s.address + 4 * k) as u32)
}

/// `t` lies inside section `s`.
pub open spec fn in_section(s: ElfSection, t: u32) -> bool {
    s.address <= t < s.address + s.data@.len()
}

/// A J/JAL target inside some executable section, found at a word before
/// position (`si`, `kk`) of the scan.
pub open spec fn found_before(secs: Seq<ElfSection>, is_le: bool, si: int, kk: int, t: u32) -> bool {
    exists|i: int, k: int| #![trigger direct_target(secs[i], k, is_le)]
        0 <= i < secs.len() && (i < si || (i == si && k < kk)) && is_exec(secs[i]) && is_direct(secs[i], k, is_le)
            && direct_target(secs[i], k, is_le) == t && in_any_exec(secs, t)
}

/// The candidate function starts: the entry point (when nonzero) and every
/// J/JAL target that lands inside an executable section.
pub open spec fn scan_starts(secs: Seq<ElfSection>, entry: u32, is_le: bool) -> Set<u32> {
    Set::new(|t: u32| (entry != 0 && t == entry) || found_before(secs, is_le, secs.len() as int, 0, t))
}

/// The starts a section is split at: the candidates inside it, in order, or
/// its base address when there are none.
pub open spec fn section_starts(starts: Set<u32>, s: ElfSection) -> Seq<u32> {
    let ks = sorted_elems(starts.filter(|x: u32| in_section(s, x)));
    if ks.len() == 0 { seq![s.address] } else { ks }
}

/// The function `sub_XXXXXXXX` spanning `[start, end)`.
pub open spec fn fe_of(start: u32, end: u32) -> (Seq<char>, u32, u32, u32) {
    ("sub_"@ + hex_fixed(start as nat, 8), start, end, (end - start) as u32)
}

/// The functions of the first `n` starts `ks`: each runs to the next start
/// (the last to `hi`); empty ranges are skipped.
pub open spec fn entries_upto(ks: Seq<u32>, hi: u32, n: int) -> Seq<(Seq<char>, u32, u32, u32)>
    decreases n,
{
    if n <= 0 {
        Seq::empty()
    } else {
        let i = n - 1;
        let end = if i + 1 < ks.len() { ks[i + 1] } else { hi };
        entries_upto(ks, hi, i) + (if end > ks[i] { seq![fe_of(ks[i], end)] } else { Seq::empty() })
    }
}

/// The functions of the first `n` sections, section by section.
pub open spec fn section_functions(secs: Seq<ElfSection>, starts: Set<u32>, n: int) -> Seq<(Seq<char>, u32, u32, u32)>
    decreases n,
{
    if n <= 0 {
        Seq::empty()
    } else {
        let s = secs[n - 1];
        section_functions(secs, starts, n - 1) + (if is_exec(s) {
            let ks = section_starts(starts, s);
            entries_upto(ks, (s.address + s.data@.len()) as u32, ks.len() as int)
        } else {
            Seq::empty()
        })
    }
}

/// Where function `i` of the split at starts `ks` ends: at the next start,
/// the last at `hi`.
pub open spec fn split_end(ks: Seq<u32>, hi: u32, i: int) -> u32 {
    if i + 1 < ks.len() { ks[i + 1] } else { hi }
}

/// Splitting at increasing starts below `hi` skips nothing: function `i`
/// spans from start `i` to the next start, the last to `hi`.
pub proof fn split_tiles(ks: Seq<u32>, hi: u32, n: int)
    requires
        strictly_increasing(ks),
        forall|i: int| 0 <= i < ks.len() ==> #[trigger] ks[i] < hi,
        0 <= n <= ks.len(),
    ensures
        entries_upto(ks, hi, n).len() == n,
        forall|i: int| 0 <= i < n ==> #[trigger] entries_upto(ks, hi, n)[i] == fe_of(ks[i], split_end(ks, hi, i)),
    decreases n,
{
    if n > 0 {
        split_tiles(ks, hi, n - 1);
        let i = n - 1;
        if i + 1 < ks.len() {
            assert(ks[i] < ks[i + 1]);
        }
        assert(split_end(ks, hi, i) > ks[i]);
    }
}

/// An executable section is cut into functions that tile it: the first
/// starts at the section's first candidate start (its base when it holds
/// none), each ends where the next starts, the last ends at the section's
/// end, every one is non-empty, sized `end - start` and named after its
/// start, and every candidate start inside the section starts one.
pub proof fn exec_section_tiling(s: ElfSection, starts: Set<u32>)
    requires
        is_exec(s),
        0 < s.data@.len(),
        s.address + s.data@.len() <= u32::MAX,
    ensures
        ({
            let ks = section_starts(starts, s);
            let hi = (s.address + s.data@.len()) as u32;
            let fs = entries_upto(ks, hi, ks.len() as int);
            &&& fs.len() == ks.len() && fs.len() > 0
            &&& forall|i: int| 0 <= i < fs.len() ==> (#[trigger] fs[i]).1 < fs[i].2 && fs[i].3 == fs[i].2 - fs[i].1
                && fs[i].0 == "sub_"@ + hex_fixed(fs[i].1 as nat, 8) && in_section(s, fs[i].1)
            &&& forall|i: int| 0 <= i < fs.len() - 1 ==> (#[trigger] fs[i]).2 == fs[i + 1].1
            &&& fs[fs.len() - 1].2 == hi
            &&& forall|i: int| 0 <= i < fs.len() ==> starts.contains((#[trigger] fs[i]).1)
                || (fs.len() == 1 && fs[i].1 == s.address)
            &&& forall|t: u32| starts.contains(t) && in_section(s, t) ==> exists|i: int| 0 <= i < fs.len() && (#[trigger] fs[i]).1 == t
            &&& (forall|t: u32| !(starts.contains(t) && in_section(s, t))) ==> fs[0].1 == s.address
        }),
{
    let set = starts.filter(|x: u32| in_section(s, x));
    crate::order::lemma_sorted_elems_lists(set);
    let sk = sorted_elems(set);
    let ks = section_starts(starts, s);
    let hi = (s.address + s.data@.len()) as u32;
    assert forall|i: int| 0 <= i < ks.len() implies #[trigger] ks[i] < hi && in_section(s, ks[i]) by {
        if sk.len() > 0 {
            assert(set.contains(sk[i]));
        }
    }
    split_tiles(ks, hi, ks.len() as int);
    let fs = entries_upto(ks, hi, ks.len() as int);
    assert forall|i: int| 0 <= i < fs.len() implies starts.contains((#[trigger] fs[i]).1)
        || (fs.len() == 1 && fs[i].1 == s.address) by {
        assert(fs[i] == fe_of(ks[i], split_end(ks, hi, i)));
        if sk.len() > 0 {
            assert(set.contains(sk[i]));
        }
    }
    assert forall|t: u32| starts.contains(t) && in_section(s, t) implies exists|i: int| 0 <= i < fs.len() && (#[trigger] fs[i]).1 == t by {
        assert(set.contains(t));
        let i = choose|i: int| 0 <= i < sk.len() && sk[i] == t;
        assert(fs[i] == fe_of(ks[i], split_end(ks, hi, i)));
    }
    if forall|t: u32| !(starts.contains(t) && in_section(s, t)) {
        if sk.len() > 0 {
            assert(set.contains(sk[0]));
        }
        assert(fs[0] == fe_of(ks[0], split_end(ks, hi, 0)));
    }
    assert forall|i: int| 0 <= i < fs.len() - 1 implies (#[trigger] fs[i]).2 == fs[i + 1].1 by {
        assert(fs[i] == fe_of(ks[i], split_end(ks, hi, i)));
        assert(fs[i + 1] == fe_of(ks[i + 1], split_end(ks, hi, i + 1)));
    }
    assert(fs[fs.len() - 1] == fe_of(ks[fs.len() - 1], split_end(ks, hi, fs.len() - 1)));
}

fn sub_name(start: u32) -> (r: String)
    ensures
        r@ == "sub_"@ + hex_fixed(start as nat, 8),
{
    let mut s = owned("sub_");
    push_hex_fixed(&mut s, start, 8);
    s
}

proof fn lemma_found_step(secs: Seq<ElfSection>, is_le: bool, si: int, kk: int, t: u32)
    requires
        0 <= si < secs.len(),
        0 <= kk,
    ensures
        found_before(secs, is_le, si, kk + 1, t) <==> (found_before(secs, is_le, si, kk, t) || (
            is_exec(secs[si]) && is_direct(secs[si], kk, is_le) && direct_target(secs[si], kk, is_le) == t
                && in_any_exec(secs, t))),
{
    if found_before(secs, is_le, si, kk + 1, t) {
        let (i, k) = choose|i: int, k: int| #![trigger direct_target(secs[i], k, is_le)]
            0 <= i < secs.len() && (i < si || (i == si && k < kk + 1)) && is_exec(secs[i]) && is_direct(secs[i], k, is_le)
                && direct_target(secs[i], k, is_le) == t && in_any_exec(secs, t);
        if !(i == si && k == kk) {
            assert(found_before(secs, is_le, si, kk, t));
        }
    }
    if is_exec(secs[si]) && is_direct(secs[si], kk, is_le) && direct_target(secs[si], kk, is_le) == t && in_any_exec(secs, t) {
        assert(found_before(secs, is_le, si, kk + 1, t));
    }
    if found_before(secs, is_le, si, kk, t) {
        let (i, k) = choose|i: int, k: int| #![trigger direct_target(secs[i], k, is_le)]
            0 <= i < secs.len() && (i < si || (i == si && k < kk)) && is_exec(secs[i]) && is_direct(secs[i], k, is_le)
                && direct_target(secs[i], k, is_le) == t && in_any_exec(secs, t);
        assert(found_before(secs, is_le, si, kk + 1, t));
    }
}

proof fn lemma_found_next_section(secs: Seq<ElfSection>, is_le: bool, si: int, t: u32)
    requires
        0 <= si < secs.len(),
    ensures
        found_before(secs, is_le, si + 1, 0, t) <==> found_before(secs, is_le, si, (secs[si].data@.len() / 4) as int, t),
{
    let n = (secs[si].data@.len() / 4) as int;
    if found_before(secs, is_le, si + 1, 0, t) {
        let (i, k) = choose|i: int, k: int| #![trigger direct_target(secs[i], k, is_le)]
            0 <= i < secs.len() && (i < si + 1 || (i == si + 1 && k < 0)) && is_exec(secs[i]) && is_direct(secs[i], k, is_le)
                && direct_target(secs[i], k, is_le) == t && in_any_exec(secs, t);
        assert(found_before(secs, is_le, si, n, t));
    }
    if found_before(secs, is_le, si, n, t) {
        let (i, k) = choose|i: int, k: int| #![trigger direct_target(secs[i], k, is_le)]
            0 <= i < secs.len() && (i < si || (i == si && k < n)) && is_exec(secs[i]) && is_direct(secs[i], k, is_le)
                && direct_target(secs[i], k, is_le) == t && in_any_exec(secs, t);
        assert(found_before(secs, is_le, si + 1, 0, t));
    }
}

proof fn lemma_found_skip_section(secs: Seq<ElfSection>, is_le: bool, si: int, t: u32)
    requires
        0 <= si < secs.len(),
        !is_exec(secs[si]),
    ensures
        found_before(secs, is_le, si + 1, 0, t) <==> found_before(secs, is_le, si, 0, t),
{
    if found_before(secs, is_le, si + 1, 0, t) {
        let (i, k) = choose|i: int, k: int| #![trigger direct_target(secs[i], k, is_le)]
            0 <= i < secs.len() && (i < si + 1 || (i == si + 1 && k < 0)) && is_exec(secs[i]) && is_direct(secs[i], k, is_le)
                && direct_target(secs[i], k, is_le) == t && in_any_exec(secs, t);
        assert(found_before(secs, is_le, si, 0, t));
    }
    if found_before(secs, is_le, si, 0, t) {
        let (i, k) = choose|i: int, k: int| #![trigger direct_target(secs[i], k, is_le)]
            0 <= i < secs.len() && (i < si || (i == si && k < 0)) && is_exec(secs[i]) && is_direct(secs[i], k, is_le)
                && direct_target(secs[i], k, is_le) == t && in_any_exec(secs, t);
        assert(found_before(secs, is_le, si + 1, 0, t));
    }
}

fn collect_starts(sections: &[ElfSection], entry_point: u32, is_little_endian: bool) -> (starts: BTreeSet<u32>)
    requires
        exec_sections_fit(sections@),
    ensures
        starts@ == scan_starts(sections@, entry_point, is_little_endian),
{
    let ghost secs = sections@;
    let mut starts: BTreeSet<u32> = BTreeSet::new();
    if entry_point != 0 {
        starts.insert(entry_point);
    }
    let mut si: usize = 0;
    while si < sections.len()
        invariant
            secs == sections@,
            exec_sections_fit(secs),
            si <= secs.len(),
            forall|t: u32| #[trigger] starts@.contains(t) <==> ((entry_point != 0 && t == entry_point)
                || found_before(secs, is_little_endian, si as int, 0, t)),
        decreases secs.len() - si,
    {
        let sec = &sections[si];
        if sec.flags & 4 != 0 {
            let data = &sec.data;
            assert(sec.address + data.len() <= u32::MAX);
            let n: usize = data.len() / 4;
            let mut k: usize = 0;
            while k < n
                invariant
                    secs == sections@,
                    si < secs.len(),
                    *sec == secs[si as int],
                    data == &sec.data,
                    exec_sections_fit(secs),
                    is_exec(secs[si as int]),
                    sec.address + data.len() <= u32::MAX,
                    n == data.len() / 4,
                    k <= n,
                    forall|t: u32| #[trigger] starts@.contains(t) <==> ((entry_point != 0 && t == entry_point)
                        || found_before(secs, is_little_endian, si as int, k as int, t)),
                decreases n - k,
            {
                let off: usize = k * 4;
                let instr = read_u32(data, off, is_little_endian);
                assert(instr == word_at(data@, 4 * k, is_little_endian));
                let op: u32 = (instr >> 26) & 0x3F;
                let ghost old_starts = starts@;
                proof {
                    assert forall|t: u32| #[trigger] found_before(secs, is_little_endian, si as int, k + 1, t) <==> (
                        found_before(secs, is_little_endian, si as int, k as int, t) || (is_exec(secs[si as int])
                            && is_direct(secs[si as int], k as int, is_little_endian)
                            && direct_target(secs[si as int], k as int, is_little_endian) == t && in_any_exec(secs, t))) by {
                        lemma_found_step(secs, is_little_endian, si as int, k as int, t);
                    }
                }
                if op == 0x03 || op == 0x02 {
                    let pc: u32 = sec.address + off as u32;
                    let target: u32 = jump_target(instr, pc);
                    assert(target == direct_target(secs[si as int], k as int, is_little_endian));
                    if in_exec(sections, target) {
                        starts.insert(target);
                        assert(starts@ == old_starts.insert(target));
                    }
                } else {
                    assert(!is_direct(secs[si as int], k as int, is_little_endian));
                }
                k = k + 1;
            }
            proof {
                assert forall|t: u32| #[trigger] found_before(secs, is_little_endian, si + 1, 0, t) <==> found_before(secs, is_little_endian, si as int, k as int, t) by {
                    lemma_found_next_section(secs, is_little_endian, si as int, t);
                }
            }
        } else {
            proof {
                assert forall|t: u32| #[trigger] found_before(secs, is_little_endian, si + 1, 0, t) <==> found_before(secs, is_little_endian, si as int, 0, t) by {
                    lemma_found_skip_section(secs, is_little_endian, si as int, t);
                }
            }
        }
        si = si + 1;
    }
    assert(starts@ =~= scan_starts(sections@, entry_point, is_little_endian));
    starts
}


/// The elements of `starts` in `[lo, hi)`, in increasing order.
fn starts_in_range(starts: &BTreeSet<u32>, lo: u32, hi: u32) -> (v: Vec<u32>)
    ensures
        lists_set(v@, starts@.filter(|x: u32| lo <= x < hi)),
{
    let ghost keys = starts.iter().remaining().map_values(|x: &u32| *x);
    proof {
        lemma_increasing_refs(starts.iter().remaining());
        let r = starts.iter().remaining();
        assert forall|x: u32| #[trigger] starts@.contains(x) implies keys.contains(x) by {
            assert(r.unref().to_set().contains(x));
            let j = choose|j: int| 0 <= j < r.unref().len() && r.unref()[j] == x;
            assert(keys[j] == x);
        }
        assert forall|j: int| 0 <= j < keys.len() implies starts@.contains(#[trigger] keys[j]) by {
            assert(r.unref()[j] == keys[j]);
            assert(r.unref().to_set().contains(keys[j]));
        }
    }
    let mut v: Vec<u32> = Vec::new();
    for x in it: starts.iter()
        invariant
            keys == it.seq().map_values(|x: &u32| *x),
            strictly_increasing(keys),
            forall|x: u32| #[trigger] starts@.contains(x) ==> keys.contains(x),
            forall|j: int| 0 <= j < keys.len() ==> starts@.contains(#[trigger] keys[j]),
            strictly_increasing(v@),
            forall|i: int| 0 <= i < v.len() ==> starts@.contains(#[trigger] v@[i]) && lo <= v@[i] < hi,
            forall|i: int, j: int| 0 <= i < v.len() && it.index() <= j < keys.len() ==> #[trigger] v@[i] < #[trigger] keys[j],
            forall|j: int| 0 <= j < it.index() && lo <= #[trigger] keys[j] < hi ==> v@.contains(keys[j]),
    {
        let ghost q = it.index();
        assert(keys[q] == *x);
        let ghost v0 = v@;
        if lo <= *x && *x < hi {
            v.push(*x);
            proof {
                assert forall|j: int| 0 <= j < q + 1 && lo <= #[trigger] keys[j] < hi implies v@.contains(keys[j]) by {
                    if j < q {
                        let i = choose|i: int| 0 <= i < v0.len() && v0[i] == keys[j];
                        assert(v@[i] == keys[j]);
                    } else {
                        assert(v@[v@.len() - 1] == keys[j]);
                    }
                }
            }
        } else {
            proof {
                assert forall|j: int| 0 <= j < q + 1 && lo <= #[trigger] keys[j] < hi implies v@.contains(keys[j]) by {
                    if j == q {
                        assert(false);
                    }
                }
            }
        }
    }
    proof {
        let f = starts@.filter(|x: u32| lo <= x < hi);
        assert forall|x: u32| #[trigger] f.contains(x) implies v@.contains(x) by {
            assert(keys.contains(x));
            let j = choose|j: int| 0 <= j < keys.len() && keys[j] == x;
            assert(lo <= keys[j] < hi);
        }
    }
    v
}

/// Detect function boundaries in the executable (`SHF_EXECINSTR`) sections
/// of a stripped binary. Every J/JAL target inside an executable section,
/// and the entry point, starts a function; each function runs to the next
/// start in its section (the last to the section end). A section with no
/// start is one function from its base. Functions are named `sub_XXXXXXXX`.
pub fn detect_functions_in_sections(sections: &[ElfSection], entry_point: u32, is_little_endian: bool) -> (funcs: Vec<FunctionEntry>)
    requires
        exec_sections_fit(sections@),
    ensures
        funcs@.map_values(|f: FunctionEntry| fe_view(f))
            == section_functions(sections@, scan_starts(sections@, entry_point, is_little_endian), sections@.len() as int),
{
    let starts = collect_starts(sections, entry_point, is_little_endian);
    let ghost st = starts@;
    let ghost secs = sections@;
    let mut funcs: Vec<FunctionEntry> = Vec::new();
    let mut si: usize = 0;
    while si < sections.len()
        invariant
            secs == sections@,
            st == starts@,
            exec_sections_fit(secs),
            si <= secs.len(),
            funcs@.map_values(|f: FunctionEntry| fe_view(f)) == section_functions(secs, st, si as int),
        decreases secs.len() - si,
    {
        let sec = &sections[si];
        let ghost f0 = funcs@.map_values(|f: FunctionEntry| fe_view(f));
        if sec.flags & 4 != 0 {
            let sec_start: u32 = sec.address;
            assert(sec.address + sec.data.len() <= u32::MAX);
            let sec_end: u32 = sec.address + sec.data.len() as u32;
            let mut sec_starts = starts_in_range(&starts, sec_start, sec_end);
            proof {
                assert(starts@.filter(|x: u32| sec_start <= x < sec_end) =~= st.filter(|x: u32| in_section(secs[si as int], x)));
                lemma_sorted_elems(sec_starts@, st.filter(|x: u32| in_section(secs[si as int], x)));
            }
            if sec_starts.len() == 0 {
                sec_starts.push(sec_start);
            }
            let ghost ks = sec_starts@;
            assert(ks == section_starts(st, secs[si as int]));
            let mut i: usize = 0;
            while i < sec_starts.len()
                invariant
                    ks == sec_starts@,
                    i <= ks.len(),
                    funcs@.map_values(|f: FunctionEntry| fe_view(f)) == f0 + entries_upto(ks, sec_end, i as int),
                decreases ks.len() - i,
            {
                let start = sec_starts[i];
                let next = if i + 1 < sec_starts.len() { sec_starts[i + 1] } else { sec_end };
                let ghost before = funcs@;
                if next > start {
                    funcs.push(FunctionEntry { name: sub_name(start), start, end: next, size: next - start });
                    assert(funcs@.map_values(|f: FunctionEntry| fe_view(f)) =~= before.map_values(|f: FunctionEntry| fe_view(f)) + seq![fe_of(start, next)]);
                } else {
                    assert(funcs@ == before);
                }
                i = i + 1;
            }
        }
        si = si + 1;
    }
    funcs
}


// ---------------------------------------------------------------------------
// Call graph
// ---------------------------------------------------------------------------

/// Kind of direct call edge.
#[derive(Clone, Copy, Debug, PartialEq, Eq, Structural)]
pub enum CallKind {
    /// `jal target`.
    Jal,
    /// `j target` that leaves the containing function (a tail call).
    Jump,
}

/// A call edge attributed to the function holding the call site.
#[derive(Clone, Copy, Debug)]
pub struct CallEdge {
    /// Start address of the calling function.
    pub from: u32,
    /// Target address.
    pub to: u32,
    /// Address of the J/JAL instruction.
    pub callsite: u32,
    pub kind: CallKind,
}

/// The call graph: attributed edges, the targets that start no detected
/// function (sorted, without repeats) and resolved import names.
#[derive(Debug, Clone)]
pub struct CallGraph {
    pub edges: Vec<CallEdge>,
    pub external_targets: Vec<u32>,
    pub target_names: Vec<(u32, String)>,
}

/// A direct call found by scanning, before attribution.
#[derive(Clone, Copy, Debug, PartialEq, Eq, Structural)]
pub struct RawCallEdge {
    pub callsite: u32,
    pub target: u32,
    pub kind: CallKind,
}

/// `t` lies in some executable section.
pub open spec fn in_any_exec(secs: Seq<ElfSection>, t: u32) -> bool {
    exists|i: int| 0 <= i < secs.len() && is_exec(#[trigger] secs[i]) && in_section(secs[i], t)
}

/// The raw edge of word `k` of section `s`, if it is a J/JAL into executable code.
pub open spec fn raw_edge_at(secs: Seq<ElfSection>, s: ElfSection, k: int, is_le: bool) -> Seq<RawCallEdge> {
    if is_direct(s, k, is_le) && in_any_exec(secs, direct_target(s, k, is_le)) {
        seq![RawCallEdge {
            callsite: (s.address + 4 * k) as u32,
            target: direct_target(s, k, is_le),
            kind: if op_of(word_at(s.data@, 4 * k, is_le)) == 3 { CallKind::Jal } else { CallKind::Jump },
        }]
    } else {
        Seq::empty()
    }
}

/// The raw edges of the first `n` words of section `s`.
pub open spec fn section_raw_edges(secs: Seq<ElfSection>, s: ElfSection, is_le: bool, n: int) -> Seq<RawCallEdge>
    decreases n,
{
    if n <= 0 { Seq::empty() } else { section_raw_edges(secs, s, is_le, n - 1) + raw_edge_at(secs, s, n - 1, is_le) }
}

/// The raw edges of the first `n` sections (executable ones only).
pub open spec fn raw_edges(secs: Seq<ElfSection>, is_le: bool, n: int) -> Seq<RawCallEdge>
    decreases n,
{
    if n <= 0 {
        Seq::empty()
    } else {
        raw_edges(secs, is_le, n - 1) + (if is_exec(secs[n - 1]) {
            section_raw_edges(secs, secs[n - 1], is_le, (secs[n - 1].data@.len() / 4) as int)
        } else {
            Seq::empty()
        })
    }
}

fn in_exec(sections: &[ElfSection], t: u32) -> (b: bool)
    requires
        exec_sections_fit(sections@),
    ensures
        b == in_any_exec(sections@, t),
{
    let mut i: usize = 0;
    while i < sections.len()
        invariant
            exec_sections_fit(sections@),
            i <= sections.len(),
            forall|j: int| 0 <= j < i ==> !(is_exec(#[trigger] sections@[j]) && in_section(sections@[j], t)),
        decreases sections.len() - i,
    {
        let s = &sections[i];
        if s.flags & 4 != 0 {
            assert(is_exec(sections@[i as int]));
            if s.address <= t && (t as usize) < s.address as usize + s.data.len() {
                assert(in_section(sections@[i as int], t));
                return true;
            }
        }
        i = i + 1;
    }
    false
}

/// Scan the executable sections for direct calls (JAL) and jumps (J) whose
/// target lies in some executable section, in section and address order.
pub fn collect_call_edges(sections: &[ElfSection], is_little_endian: bool) -> (edges: Vec<RawCallEdge>)
    requires
        exec_sections_fit(sections@),
    ensures
        edges@ == raw_edges(sections@, is_little_endian, sections@.len() as int),
{
    let ghost secs = sections@;
    let mut edges: Vec<RawCallEdge> = Vec::new();
    let mut si: usize = 0;
    while si < sections.len()
        invariant
            secs == sections@,
            exec_sections_fit(secs),
            si <= secs.len(),
            edges@ == raw_edges(secs, is_little_endian, si as int),
        decreases secs.len() - si,
    {
        let sec = &sections[si];
        let ghost e0 = edges@;
        if sec.flags & 4 != 0 {
            let data = &sec.data;
            assert(is_exec(secs[si as int]));
            assert(sec.address + data.len() <= u32::MAX);
            let n: usize = data.len() / 4;
            let mut k: usize = 0;
            while k < n
                invariant
                    secs == sections@,
                    exec_sections_fit(secs),
                    si < secs.len(),
                    *sec == secs[si as int],
                    data == &sec.data,
                    sec.address + data.len() <= u32::MAX,
                    n == data.len() / 4,
                    k <= n,
                    edges@ == e0 + section_raw_edges(secs, secs[si as int], is_little_endian, k as int),
                decreases n - k,
            {
                let off: usize = k * 4;
                let instr = read_u32(data, off, is_little_endian);
                assert(instr == word_at(data@, 4 * k, is_little_endian));
                let op: u32 = (instr >> 26) & 0x3F;
                if op == 0x03 || op == 0x02 {
                    let callsite: u32 = sec.address + off as u32;
                    let target: u32 = jump_target(instr, callsite);
                    assert(target == direct_target(secs[si as int], k as int, is_little_endian));
                    if in_exec(sections, target) {
                        edges.push(RawCallEdge { callsite, target, kind: if op == 0x03 { CallKind::Jal } else { CallKind::Jump } });
                    }
                }
                k = k + 1;
            }
        }
        si = si + 1;
    }
    edges
}

/// `i` is the function a call site `c` is attributed to: the one with the
/// greatest start not above `c` (the last listed among equal starts).
pub open spec fn attributed_to(funcs: Seq<FunctionEntry>, c: u32, i: int) -> bool {
    &&& 0 <= i < funcs.len()
    &&& funcs[i].start <= c
    &&& forall|j: int| 0 <= j < funcs.len() && #[trigger] funcs[j].start <= c ==>
            (funcs[j].start < funcs[i].start || (funcs[j].start == funcs[i].start && j <= i))
}

/// The edge a raw edge becomes: attributed to function `i` when its call site
/// lies inside it, dropped when it is a jump within that function.
pub open spec fn attribute_edge(funcs: Seq<FunctionEntry>, r: RawCallEdge) -> Seq<CallEdge> {
    if exists|i: int| attributed_to(funcs, r.callsite, i) {
        let i = choose|i: int| attributed_to(funcs, r.callsite, i);
        let f = funcs[i];
        if r.callsite >= f.end || (r.kind == CallKind::Jump && f.start <= r.target && r.target < f.end) {
            Seq::empty()
        } else {
            seq![CallEdge { from: f.start, to: r.target, callsite: r.callsite, kind: r.kind }]
        }
    } else {
        Seq::empty()
    }
}

/// The attributed edges of the first `n` raw edges.
pub open spec fn attributed_edges(funcs: Seq<FunctionEntry>, raw: Seq<RawCallEdge>, n: int) -> Seq<CallEdge>
    decreases n,
{
    if n <= 0 { Seq::empty() } else { attributed_edges(funcs, raw, n - 1) + attribute_edge(funcs, raw[n - 1]) }
}

/// Targets of `edges` that start no function in `funcs`.
pub open spec fn external_set(edges: Seq<CallEdge>, funcs: Seq<FunctionEntry>) -> Set<u32> {
    Set::new(|t: u32| exists|k: int| 0 <= k < edges.len() && #[trigger] edges[k].to == t
        && !(exists|j: int| 0 <= j < funcs.len() && #[trigger] funcs[j].start == t))
}

/// Each function spans a non-empty range, and no two ranges overlap.
pub open spec fn disjoint_functions(funcs: Seq<FunctionEntry>) -> bool {
    &&& forall|i: int| 0 <= i < funcs.len() ==> #[trigger] funcs[i].start < funcs[i].end
    &&& forall|i: int, j: int|
        0 <= i < funcs.len() && 0 <= j < funcs.len() && i != j ==> #[trigger] funcs[i].end <= #[trigger] funcs[j].start
            || funcs[j].end <= funcs[i].start
}

/// Function `i` holds address `c`.
pub open spec fn holds_site(funcs: Seq<FunctionEntry>, c: u32, i: int) -> bool {
    0 <= i < funcs.len() && funcs[i].start <= c && c < funcs[i].end
}

/// The edge a raw edge becomes, read directly: attributed to the function
/// whose range holds its call site, dropped when none does, and dropped when
/// it is a jump that stays inside that function.
pub open spec fn containing_edge(funcs: Seq<FunctionEntry>, r: RawCallEdge) -> Seq<CallEdge> {
    if exists|i: int| holds_site(funcs, r.callsite, i) {
        let i = choose|i: int| holds_site(funcs, r.callsite, i);
        let f = funcs[i];
        if r.kind == CallKind::Jump && f.start <= r.target && r.target < f.end {
            Seq::empty()
        } else {
            seq![CallEdge { from: f.start, to: r.target, callsite: r.callsite, kind: r.kind }]
        }
    } else {
        Seq::empty()
    }
}

/// The edges of the first `n` raw edges, read directly.
pub open spec fn contained_edges(funcs: Seq<FunctionEntry>, raw: Seq<RawCallEdge>, n: int) -> Seq<CallEdge>
    decreases n,
{
    if n <= 0 { Seq::empty() } else { contained_edges(funcs, raw, n - 1) + containing_edge(funcs, raw[n - 1]) }
}

proof fn lemma_attribute_is_containing(funcs: Seq<FunctionEntry>, r: RawCallEdge)
    requires
        disjoint_functions(funcs),
    ensures
        attribute_edge(funcs, r) == containing_edge(funcs, r),
{
    let c = r.callsite;
    if exists|i: int| holds_site(funcs, c, i) {
        let i = choose|i: int| holds_site(funcs, c, i);
        let w = choose_attributed(funcs, c, i);
        assert(attributed_to(funcs, c, w));
        let a = choose|a: int| attributed_to(funcs, c, a);
        if a != i {
            assert(funcs[i].start <= c);
            if funcs[a].start == funcs[i].start {
                assert(funcs[a].start < funcs[a].end);
            } else {
                assert(funcs[i].start < funcs[a].start);
                assert(funcs[a].start < funcs[a].end);
            }
        }
    } else {
        if exists|a: int| attributed_to(funcs, c, a) {
            let a = choose|a: int| attributed_to(funcs, c, a);
            assert(!holds_site(funcs, c, a));
        }
    }
}

/// Among the functions starting at or below `c`, one with the greatest start
/// (the last listed among equal starts) exists once any does.
proof fn choose_attributed(funcs: Seq<FunctionEntry>, c: u32, i: int) -> (a: int)
    requires
        0 <= i < funcs.len(),
        funcs[i].start <= c,
    ensures
        attributed_to(funcs, c, a),
    decreases funcs.len(),
{
    let n = funcs.len() - 1;
    if n == 0 {
        0
    } else {
        let init = funcs.drop_last();
        let last = funcs[n];
        if i < n {
            let b = choose_attributed(init, c, i);
            assert(init[b] == funcs[b]);
            if last.start <= c && last.start >= funcs[b].start {
                assert forall|j: int| 0 <= j < funcs.len() && #[trigger] funcs[j].start <= c implies
                    (funcs[j].start < funcs[n].start || (funcs[j].start == funcs[n].start && j <= n)) by {
                    if j < n {
                        assert(init[j] == funcs[j]);
                    }
                }
                n
            } else {
                assert forall|j: int| 0 <= j < funcs.len() && #[trigger] funcs[j].start <= c implies
                    (funcs[j].start < funcs[b].start || (funcs[j].start == funcs[b].start && j <= b)) by {
                    if j < n {
                        assert(init[j] == funcs[j]);
                    }
                }
                b
            }
        } else {
            if exists|k: int| 0 <= k < n && funcs[k].start <= c && funcs[k].start > last.start {
                let k = choose|k: int| 0 <= k < n && funcs[k].start <= c && funcs[k].start > last.start;
                assert(init[k] == funcs[k]);
                let b = choose_attributed(init, c, k);
                assert(init[b] == funcs[b]);
                assert forall|j: int| 0 <= j < funcs.len() && #[trigger] funcs[j].start <= c implies
                    (funcs[j].start < funcs[b].start || (funcs[j].start == funcs[b].start && j <= b)) by {
                    if j < n {
                        assert(init[j] == funcs[j]);
                    }
                }
                b
            } else {
                n
            }
        }
    }
}

/// When the functions' ranges are non-empty and disjoint, the call graph's
/// edges are the raw edges in order, each attributed to the function whose
/// range holds its call site; an edge whose call site no function holds is
/// dropped, and so is a jump that stays inside its function (calls to the
/// function itself are kept).
pub proof fn call_graph_edges_by_containment(funcs: Seq<FunctionEntry>, raw: Seq<RawCallEdge>, n: int)
    requires
        disjoint_functions(funcs),
        0 <= n <= raw.len(),
    ensures
        attributed_edges(funcs, raw, n) == contained_edges(funcs, raw, n),
    decreases n,
{
    if n > 0 {
        call_graph_edges_by_containment(funcs, raw, n - 1);
        lemma_attribute_is_containing(funcs, raw[n - 1]);
    }
}

proof fn lemma_attributed_unique(funcs: Seq<FunctionEntry>, c: u32, i: int, j: int)
    requires
        attributed_to(funcs, c, i),
        attributed_to(funcs, c, j),
    ensures
        i == j,
{
    assert(funcs[j].start <= c);
    assert(funcs[i].start <= c);
}

fn find_attribution(funcs: &[FunctionEntry], c: u32) -> (r: Option<usize>)
    ensures
        match r {
            Some(i) => attributed_to(funcs@, c, i as int),
            None => !exists|i: int| attributed_to(funcs@, c, i),
        },
{
    let mut best: Option<usize> = None;
    let mut i: usize = 0;
    while i < funcs.len()
        invariant
            i <= funcs.len(),
            match best {
                Some(b) => attributed_to(funcs@.take(i as int), c, b as int),
                None => forall|j: int| 0 <= j < i ==> #[trigger] funcs@[j].start > c,
            },
        decreases funcs.len() - i,
    {
        let s = funcs[i].start;
        if s <= c {
            match best {
                Some(b) => {
                    if s >= funcs[b].start {
                        best = Some(i);
                    }
                },
                None => {
                    best = Some(i);
                },
            }
        }
        proof {
            let t = funcs@.take(i + 1);
            match best {
                Some(b) => {
                    assert forall|j: int| 0 <= j < t.len() && #[trigger] t[j].start <= c implies
                        (t[j].start < t[b as int].start || (t[j].start == t[b as int].start && j <= b)) by {
                        if j < i {
                            assert(t[j] == funcs@.take(i as int)[j]);
                        }
                    }
                },
                None => {},
            }
        }
        i = i + 1;
    }
    assert(funcs@.take(i as int) =~= funcs@);
    match best {
        Some(b) => {},
        None => {
            assert forall|k: int| !attributed_to(funcs@, c, k) by {
                if 0 <= k < funcs@.len() {
                    assert(funcs@[k].start > c);
                }
            }
        },
    }
    best
}

fn is_start(funcs: &[FunctionEntry], t: u32) -> (b: bool)
    ensures
        b == exists|j: int| 0 <= j < funcs@.len() && #[trigger] funcs@[j].start == t,
{
    let mut i: usize = 0;
    while i < funcs.len()
        invariant
            i <= funcs.len(),
            forall|j: int| 0 <= j < i ==> #[trigger] funcs@[j].start != t,
        decreases funcs.len() - i,
    {
        if funcs[i].start == t {
            return true;
        }
        i = i + 1;
    }
    false
}

/// Attribute each raw edge to the function containing its call site and
/// filter: edges whose call site lies in no function are dropped, and so are
/// jumps (not calls) that stay inside their own function. Targets that start
/// no function are listed, sorted and without repeats, as external.
pub fn build_call_graph(raw: Vec<RawCallEdge>, funcs: &[FunctionEntry]) -> (g: CallGraph)
    ensures
        g.edges@ == attributed_edges(funcs@, raw@, raw@.len() as int),
        lists_set(g.external_targets@, external_set(g.edges@, funcs@)),
        g.target_names@.len() == 0,
{
    let mut edges: Vec<CallEdge> = Vec::new();
    let mut k: usize = 0;
    while k < raw.len()
        invariant
            k <= raw.len(),
            edges@ == attributed_edges(funcs@, raw@, k as int),
        decreases raw.len() - k,
    {
        let r = raw[k];
        let ghost e0 = edges@;
        match find_attribution(funcs, r.callsite) {
            Some(i) => {
                proof {
                    let ch = choose|i2: int| attributed_to(funcs@, r.callsite, i2);
                    lemma_attributed_unique(funcs@, r.callsite, i as int, ch);
                }
                let f = &funcs[i];
                let inner_jump = match r.kind {
                    CallKind::Jump => r.target >= f.start && r.target < f.end,
                    CallKind::Jal => false,
                };
                if !(r.callsite < f.start || r.callsite >= f.end) && !inner_jump {
                    edges.push(CallEdge { from: f.start, to: r.target, callsite: r.callsite, kind: r.kind });
                }
            },
            None => {},
        }
        assert(edges@ =~= e0 + attribute_edge(funcs@, raw@[k as int]));
        k = k + 1;
    }
    let mut ext: BTreeSet<u32> = BTreeSet::new();
    let mut j: usize = 0;
    while j < edges.len()
        invariant
            j <= edges.len(),
            forall|t: u32| #[trigger] ext@.contains(t) <==> (exists|q: int| 0 <= q < j && #[trigger] edges@[q].to == t
                && !(exists|m: int| 0 <= m < funcs@.len() && #[trigger] funcs@[m].start == t)),
        decreases edges.len() - j,
    {
        let t = edges[j].to;
        let ghost old_ext = ext@;
        if !is_start(funcs, t) {
            ext.insert(t);
        }
        proof {
            assert forall|x: u32| #[trigger] ext@.contains(x) <==> (exists|q: int| 0 <= q < j + 1 && #[trigger] edges@[q].to == x
                && !(exists|m: int| 0 <= m < funcs@.len() && #[trigger] funcs@[m].start == x)) by {
                if ext@.contains(x) && !old_ext.contains(x) {
                    assert(edges@[j as int].to == x);
                }
                if exists|q: int| 0 <= q < j + 1 && #[trigger] edges@[q].to == x
                    && !(exists|m: int| 0 <= m < funcs@.len() && #[trigger] funcs@[m].start == x) {
                    let q = choose|q: int| 0 <= q < j + 1 && #[trigger] edges@[q].to == x
                        && !(exists|m: int| 0 <= m < funcs@.len() && #[trigger] funcs@[m].start == x);
                    if q < j {
                        assert(old_ext.contains(x));
                    }
                }
            }
        }
        j = j + 1;
    }
    let external = sorted_members(&ext);
    assert(ext@ =~= external_set(edges@, funcs@));
    CallGraph { edges, external_targets: external, target_names: Vec::new() }
}

/// All elements of a set, in increasing order.
fn sorted_members(set: &BTreeSet<u32>) -> (v: Vec<u32>)
    ensures
        lists_set(v@, set@),
{
    let ghost keys = set.iter().remaining().map_values(|x: &u32| *x);
    proof {
        lemma_increasing_refs(set.iter().remaining());
        let r = set.iter().remaining();
        assert forall|x: u32| #[trigger] set@.contains(x) implies keys.contains(x) by {
            assert(r.unref().to_set().contains(x));
            let j = choose|j: int| 0 <= j < r.unref().len() && r.unref()[j] == x;
            assert(keys[j] == x);
        }
        assert forall|j: int| 0 <= j < keys.len() implies set@.contains(#[trigger] keys[j]) by {
            assert(r.unref()[j] == keys[j]);
            assert(r.unref().to_set().contains(keys[j]));
        }
    }
    let mut v: Vec<u32> = Vec::new();
    for x in it: set.iter()
        invariant
            keys == it.seq().map_values(|x: &u32| *x),
            strictly_increasing(keys),
            forall|x: u32| #[trigger] set@.contains(x) ==> keys.contains(x),
            forall|j: int| 0 <= j < keys.len() ==> set@.contains(#[trigger] keys[j]),
            v@ == keys.take(it.index()),
    {
        let ghost q = it.index();
        assert(keys[q] == *x);
        v.push(*x);
        assert(v@ =~= keys.take(q + 1));
    }
    proof {
        assert(v@ =~= keys);
    }
    v
}


/// A named `R_MIPS_26` (J/JAL target) relocation.
pub open spec fn names_call(r: Relocation) -> bool {
    r.r_type == 4 && r.symbol_name@.len() > 0
}

/// The name of the first named `R_MIPS_26` relocation among the first `n`
/// that patches address `off`.
pub open spec fn reloc_name_at(relocs: Seq<Relocation>, n: int, off: u32) -> Option<Seq<char>>
    decreases n,
{
    if n <= 0 {
        None
    } else {
        let prev = reloc_name_at(relocs, n - 1, off);
        if prev is Some {
            prev
        } else if names_call(relocs[n - 1]) && relocs[n - 1].offset == off {
            Some(relocs[n - 1].symbol_name@)
        } else {
            None
        }
    }
}

/// The import name of call target `t`: the relocation name at the call site of
/// the first JAL edge (among the first `n`) to `t` whose call site is named.
pub open spec fn target_name(edges: Seq<CallEdge>, relocs: Seq<Relocation>, n: int, t: u32) -> Option<Seq<char>>
    decreases n,
{
    if n <= 0 {
        None
    } else {
        let prev = target_name(edges, relocs, n - 1, t);
        let e = edges[n - 1];
        if prev is Some {
            prev
        } else if e.kind == CallKind::Jal && e.to == t && reloc_name_at(relocs, relocs.len() as int, e.callsite) is Some {
            reloc_name_at(relocs, relocs.len() as int, e.callsite)
        } else {
            None
        }
    }
}

/// The (target, name) pairs resolved from the relocations, by target.
pub open spec fn named_targets(edges: Seq<CallEdge>, relocs: Seq<Relocation>) -> Set<u32> {
    Set::new(|t: u32| target_name(edges, relocs, edges.len() as int, t) is Some)
}

fn reloc_names(relocations: &[Relocation]) -> (m: BTreeMap<u32, String>)
    ensures
        forall|off: u32| #[trigger] m@.contains_key(off) <==> reloc_name_at(relocations@, relocations@.len() as int, off) is Some,
        forall|off: u32| #[trigger] m@.contains_key(off) ==> Some(m@[off]@) == reloc_name_at(relocations@, relocations@.len() as int, off),
{
    let mut m: BTreeMap<u32, String> = BTreeMap::new();
    let mut i: usize = 0;
    while i < relocations.len()
        invariant
            i <= relocations.len(),
            forall|off: u32| #[trigger] m@.contains_key(off) <==> reloc_name_at(relocations@, i as int, off) is Some,
            forall|off: u32| #[trigger] m@.contains_key(off) ==> Some(m@[off]@) == reloc_name_at(relocations@, i as int, off),
        decreases relocations.len() - i,
    {
        let r = &relocations[i];
        if r.r_type == 4 && !r.symbol_name.as_str().is_empty() && !m.contains_key(&r.offset) {
            m.insert(r.offset, r.symbol_name.clone());
        }
        i = i + 1;
    }
    m
}

/// Name call targets from relocations: each named `R_MIPS_26` relocation
/// names the address it patches (the first one wins); each JAL edge whose
/// call site is so named gives its target that name (the first edge wins).
/// The (target, name) pairs replace `target_names`, sorted by target. With no
/// named `R_MIPS_26` relocation the graph is returned unchanged.
pub fn enrich_call_graph_with_relocs(graph: CallGraph, relocations: &[Relocation]) -> (g: CallGraph)
    ensures
        g.edges@ == graph.edges@,
        g.external_targets@ == graph.external_targets@,
        (forall|i: int| 0 <= i < relocations@.len() ==> !names_call(#[trigger] relocations@[i])) ==> g.target_names@ == graph.target_names@,
        (exists|i: int| 0 <= i < relocations@.len() && names_call(#[trigger] relocations@[i])) ==> {
            &&& lists_set(g.target_names@.map_values(|p: (u32, String)| p.0), named_targets(graph.edges@, relocations@))
            &&& forall|k: int| 0 <= k < g.target_names@.len() ==>
                    Some((#[trigger] g.target_names@[k]).1@) == target_name(graph.edges@, relocations@, graph.edges@.len() as int, g.target_names@[k].0)
        },
{
    let mut graph = graph;
    let name_at_offset = reloc_names(relocations);
    let mut any_named = false;
    let mut i: usize = 0;
    while i < relocations.len()
        invariant
            i <= relocations.len(),
            any_named == exists|j: int| 0 <= j < i && names_call(#[trigger] relocations@[j]),
        decreases relocations.len() - i,
    {
        if relocations[i].r_type == 4 && !relocations[i].symbol_name.as_str().is_empty() {
            any_named = true;
        }
        i = i + 1;
    }
    if !any_named {
        return graph;
    }
    let mut by_target: BTreeMap<u32, String> = BTreeMap::new();
    let mut k: usize = 0;
    while k < graph.edges.len()
        invariant
            k <= graph.edges.len(),
            forall|off: u32| #[trigger] name_at_offset@.contains_key(off) <==> reloc_name_at(relocations@, relocations@.len() as int, off) is Some,
            forall|off: u32| #[trigger] name_at_offset@.contains_key(off) ==> Some(name_at_offset@[off]@) == reloc_name_at(relocations@, relocations@.len() as int, off),
            forall|t: u32| #[trigger] by_target@.contains_key(t) <==> target_name(graph.edges@, relocations@, k as int, t) is Some,
            forall|t: u32| #[trigger] by_target@.contains_key(t) ==> Some(by_target@[t]@) == target_name(graph.edges@, relocations@, k as int, t),
        decreases graph.edges.len() - k,
    {
        let e = graph.edges[k];
        let is_jal = match e.kind {
            CallKind::Jal => true,
            CallKind::Jump => false,
        };
        if is_jal && !by_target.contains_key(&e.to) {
            match name_at_offset.get(&e.callsite) {
                Some(name) => {
                    by_target.insert(e.to, name.clone());
                },
                None => {},
            }
        }
        k = k + 1;
    }
    let mut pairs: Vec<(u32, String)> = Vec::new();
    let ghost m = by_target@;
    let ghost keys = by_target.iter().remaining().map_values(|kv: (&u32, &String)| *kv.0);
    proof {
        let v = by_target.iter().remaining();
        assert forall|t: u32| #[trigger] m.dom().contains(t) implies keys.contains(t) by {
            let q = choose|q: int| 0 <= q < v.len() && v[q] == (&t, &m[t]);
            assert(keys[q] == t);
        }
        assert forall|q: int| 0 <= q < keys.len() implies m.dom().contains(#[trigger] keys[q]) by {
            assert(m.contains_key(*v[q].0));
        }
    }
    for entry in it: by_target.iter()
        invariant
            m == by_target@,
            keys == it.seq().map_values(|kv: (&u32, &String)| *kv.0),
            increasing_seq(keys),
            forall|q: int| 0 <= q < it.seq().len() ==> #[trigger] m.contains_key(*it.seq()[q].0) && m[*it.seq()[q].0] == *it.seq()[q].1,
            pairs@.map_values(|p: (u32, String)| p.0) == keys.take(it.index()),
            forall|q: int| 0 <= q < pairs@.len() ==> (#[trigger] pairs@[q]).1@ == m[pairs@[q].0]@,
            forall|t: u32| #[trigger] m.dom().contains(t) ==> keys.contains(t),
            forall|q: int| 0 <= q < keys.len() ==> m.dom().contains(#[trigger] keys[q]),
            forall|t: u32| #[trigger] m.contains_key(t) <==> target_name(graph.edges@, relocations@, graph.edges@.len() as int, t) is Some,
            forall|t: u32| #[trigger] m.contains_key(t) ==> Some(m[t]@) == target_name(graph.edges@, relocations@, graph.edges@.len() as int, t),
    {
        let (t, name) = entry;
        let ghost q = it.index();
        assert(it.seq()[q] == entry);
        let ghost p0 = pairs@;
        assert(keys[q] == *t);
        assert(m.contains_key(*t) && m[*t] == *name);
        pairs.push((*t, name.clone()));
        proof {
            let a = pairs@.map_values(|p: (u32, String)| p.0);
            let b = keys.take(q + 1);
            assert(p0.map_values(|p: (u32, String)| p.0).len() == p0.len());
            assert(keys.take(q).len() == q);
            assert(p0.len() == q);
            assert(pairs@.len() == q + 1);
            assert(a.len() == b.len());
            assert forall|z: int| 0 <= z < a.len() implies a[z] == b[z] by {
                if z < q {
                    assert(pairs@[z] == p0[z]);
                    assert(p0.map_values(|p: (u32, String)| p.0)[z] == keys.take(q)[z]);
                }
            }
            assert(a =~= b);
        }
        proof {
            assert forall|q2: int| 0 <= q2 < pairs@.len() implies (#[trigger] pairs@[q2]).1@ == m[pairs@[q2].0]@ by {
                if q2 < p0.len() {
                    assert(pairs@[q2] == p0[q2]);
                }
            }
        }
    }
    proof {
        crate::order::lemma_increasing_u32(keys);
        let pk = pairs@.map_values(|p: (u32, String)| p.0);
        assert(pk =~= keys);
        assert(m.dom() =~= named_targets(graph.edges@, relocations@));
        assert forall|k: int| 0 <= k < pairs@.len() implies
            Some((#[trigger] pairs@[k]).1@) == target_name(graph.edges@, relocations@, graph.edges@.len() as int, pairs@[k].0) by {
            assert(pk[k] == keys[k]);
            assert(m.dom().contains(keys[k]));
        }
        assert(lists_set(pk, named_targets(graph.edges@, relocations@)));
    }
    graph.target_names = pairs;
    graph
}

proof fn lemma_reloc_name_some(relocs: Seq<Relocation>, n: int, off: u32)
    requires
        0 <= n <= relocs.len(),
        reloc_name_at(relocs, n, off) is Some,
    ensures
        exists|i: int| 0 <= i < relocs.len() && names_call(#[trigger] relocs[i]),
    decreases n,
{
    if reloc_name_at(relocs, n - 1, off) is Some {
        lemma_reloc_name_some(relocs, n - 1, off);
    } else {
        assert(names_call(relocs[n - 1]));
    }
}


// ---------------------------------------------------------------------------
// TOML configuration
// ---------------------------------------------------------------------------

/// One character of a path in a TOML string: `\` becomes `/`, `"` is escaped.
pub open spec fn toml_path_char(c: char) -> Seq<char> {
    if c == '\\' { seq!['/'] } else if c == '"' { seq!['\\', '"'] } else { seq![c] }
}

/// A path's characters, each rendered by [`toml_path_char`].
pub open spec fn toml_path_body(s: Seq<char>) -> Seq<char>
    decreases s.len(),
{
    if s.len() == 0 { Seq::empty() } else { toml_path_body(s.drop_last()) + toml_path_char(s.last()) }
}

/// One character in a TOML basic string: `"` and `\` escaped, control
/// characters as `\uXXXX`.
pub open spec fn toml_basic_char(c: char) -> Seq<char> {
    if c == '"' { seq!['\\', '"'] }
    else if c == '\\' { seq!['\\', '\\'] }
    else if (c as u32) < 0x20 || c as u32 == 0x7F { seq!['\\', 'u'] + hex_fixed(c as u32 as nat, 4) }
    else { seq![c] }
}

/// A string's characters, each rendered by [`toml_basic_char`].
pub open spec fn toml_basic_body(s: Seq<char>) -> Seq<char>
    decreases s.len(),
{
    if s.len() == 0 { Seq::empty() } else { toml_basic_body(s.drop_last()) + toml_basic_char(s.last()) }
}

/// The value of a hex digit (either case), if `c` is one.
pub open spec fn toml_hex_digit(c: char) -> Option<nat> {
    let v = c as u32;
    if 48 <= v <= 57 { Some((v - 48) as nat) }
    else if 65 <= v <= 70 { Some((v - 55) as nat) }
    else if 97 <= v <= 102 { Some((v - 87) as nat) }
    else { None }
}

/// The number a run of hex digits spells, if all are hex digits.
pub open spec fn toml_hex_value(s: Seq<char>) -> Option<nat>
    decreases s.len(),
{
    if s.len() == 0 {
        Some(0)
    } else {
        match (toml_hex_value(s.drop_last()), toml_hex_digit(s.last())) {
            (Some(a), Some(d)) => Some(a * 16 + d),
            _ => None,
        }
    }
}

/// A Unicode scalar value: a code point that is not a surrogate.
pub open spec fn is_scalar(v: nat) -> bool {
    v < 0xD800 || (0xE000 <= v && v <= 0x10FFFF)
}

/// The character a `\uXXXX` or `\UXXXXXXXX` escape with digits `ds` stands for.
pub open spec fn toml_unicode(ds: Seq<char>) -> Option<char> {
    match toml_hex_value(ds) {
        Some(v) => if is_scalar(v) { Some(v as char) } else { None },
        None => None,
    }
}

/// The first piece of the inside of a TOML basic string: the character it
/// stands for and how many characters it takes. Escapes are `\"`, `\\`,
/// `\b`, `\t`, `\n`, `\f`, `\r`, `\uXXXX` and `\UXXXXXXXX`; a raw `"`, a raw
/// control character other than tab, and DEL are not allowed.
pub open spec fn toml_piece(t: Seq<char>) -> Option<(char, nat)> {
    if t.len() == 0 {
        None
    } else if t[0] == '\\' {
        if t.len() < 2 {
            None
        } else {
            let e = t[1];
            if e == '"' { Some(('"', 2)) }
            else if e == '\\' { Some(('\\', 2)) }
            else if e == 'b' { Some(('\x08', 2)) }
            else if e == 't' { Some(('\t', 2)) }
            else if e == 'n' { Some(('\n', 2)) }
            else if e == 'f' { Some(('\x0C', 2)) }
            else if e == 'r' { Some(('\r', 2)) }
            else if e == 'u' && t.len() >= 6 {
                match toml_unicode(t.subrange(2, 6)) { Some(c) => Some((c, 6)), None => None }
            } else if e == 'U' && t.len() >= 10 {
                match toml_unicode(t.subrange(2, 10)) { Some(c) => Some((c, 10)), None => None }
            } else {
                None
            }
        }
    } else if t[0] == '"' || ((t[0] as u32) < 0x20 && t[0] != '\t') || t[0] as u32 == 0x7F {
        None
    } else {
        Some((t[0], 1))
    }
}

/// What the inside of a TOML basic string (the text between its quotes)
/// reads as, or `None` when it is not a valid one.
pub open spec fn toml_basic_read(t: Seq<char>) -> Option<Seq<char>>
    decreases t.len(),
{
    if t.len() == 0 {
        Some(Seq::empty())
    } else {
        match toml_piece(t) {
            Some((c, k)) => if 1 <= k <= t.len() {
                match toml_basic_read(t.skip(k as int)) {
                    Some(r) => Some(seq![c] + r),
                    None => None,
                }
            } else {
                None
            },
            None => None,
        }
    }
}

proof fn lemma_piece_prefix(x: Seq<char>, y: Seq<char>)
    requires
        toml_piece(x) is Some,
    ensures
        toml_piece(x + y) == toml_piece(x),
        ({ let pc = toml_piece(x)->0; 1 <= pc.1 <= x.len() }),
{
    let t = x + y;
    assert(t[0] == x[0]);
    if x[0] == '\\' {
        assert(t[1] == x[1]);
        if x.len() >= 6 {
            assert(t.subrange(2, 6) =~= x.subrange(2, 6));
        }
        if x.len() >= 10 {
            assert(t.subrange(2, 10) =~= x.subrange(2, 10));
        }
    }
}

proof fn lemma_read_append(x: Seq<char>, y: Seq<char>)
    requires
        toml_basic_read(x) is Some,
    ensures
        toml_basic_read(x + y) == (match toml_basic_read(y) {
            Some(b) => Some(toml_basic_read(x)->0 + b),
            None => None::<Seq<char>>,
        }),
    decreases x.len(),
{
    if x.len() == 0 {
        assert(x + y =~= y);
        assert(toml_basic_read(x)->0 =~= Seq::<char>::empty());
        match toml_basic_read(y) {
            Some(b) => { assert(Seq::<char>::empty() + b =~= b); },
            None => {},
        }
    } else {
        lemma_piece_prefix(x, y);
        let (c, k) = toml_piece(x)->0;
        let rest = x.skip(k as int);
        assert((x + y).skip(k as int) =~= rest + y);
        lemma_read_append(rest, y);
        match toml_basic_read(y) {
            Some(b) => {
                let a = toml_basic_read(rest)->0;
                assert(seq![c] + (a + b) =~= (seq![c] + a) + b);
            },
            None => {},
        }
    }
}

/// `p16(w)` is `16^w`.
pub open spec fn p16(w: nat) -> nat
    decreases w,
{
    if w == 0 { 1 } else { 16 * p16((w - 1) as nat) }
}

proof fn lemma_hex_fixed_reads(v: nat, w: nat)
    requires
        v < p16(w),
    ensures
        toml_hex_value(hex_fixed(v, w)) == Some(v),
        hex_fixed(v, w).len() == w,
    decreases w,
{
    if w == 0 {
    } else {
        let p = p16((w - 1) as nat);
        assert(v / 16 < p) by (nonlinear_arith)
            requires v < 16 * p;
        lemma_hex_fixed_reads(v / 16, (w - 1) as nat);
        let d = (v % 16) as int;
        let h = hex_fixed(v, w);
        assert(h.drop_last() =~= hex_fixed(v / 16, (w - 1) as nat));
        assert(toml_hex_digit(crate::text::hex_digit(d)) == Some(d as nat));
        assert((v / 16) * 16 + v % 16 == v) by (nonlinear_arith);
    }
}

proof fn lemma_char_reads(c: char)
    ensures
        toml_basic_read(toml_basic_char(c)) == Some(seq![c]),
{
    let t = toml_basic_char(c);
    let e = Seq::<char>::empty();
    assert(toml_basic_read(e) == Some(e));
    assert(seq![c] + e =~= seq![c]);
    if c == '"' || c == '\\' {
        assert(t.skip(2) =~= e);
        assert(toml_piece(t) == Some((c, 2nat)));
    } else if (c as u32) < 0x20 || c as u32 == 0x7F {
        let v = c as u32 as nat;
        reveal_with_fuel(p16, 5);
        assert(p16(4) == 65536);
        lemma_hex_fixed_reads(v, 4);
        assert(t.subrange(2, 6) =~= hex_fixed(v, 4));
        assert((v as char) == c);
        assert(toml_unicode(t.subrange(2, 6)) == Some(c));
        assert(toml_piece(t) == Some((c, 6nat)));
        assert(t.skip(6) =~= e);
    } else {
        assert(t.skip(1) =~= e);
        assert(toml_piece(t) == Some((c, 1nat)));
    }
}

/// Reading back what `toml_basic_string` writes between the quotes gives
/// the string it was given: the escaping round-trips through the TOML basic
/// string grammar, and holds no raw `"` that would end the string early.
pub proof fn toml_basic_round_trip(s: Seq<char>)
    ensures
        toml_basic_read(toml_basic_body(s)) == Some(s),
    decreases s.len(),
{
    if s.len() == 0 {
    } else {
        toml_basic_round_trip(s.drop_last());
        lemma_char_reads(s.last());
        lemma_read_append(toml_basic_body(s.drop_last()), toml_basic_char(s.last()));
        assert(s.drop_last() + seq![s.last()] =~= s);
    }
}

/// Quote a path for TOML, normalizing backslashes to forward slashes and
/// escaping double quotes.
pub fn toml_path(p: &str) -> (r: String)
    ensures
        r@ == seq!['"'] + toml_path_body(p@) + seq!['"'],
{
    let mut s = String::new();
    push_char(&mut s, '"');
    let ghost s0 = s@;
    for ch in it: p.chars()
        invariant
            it.seq() == p@,
            s@ == s0 + toml_path_body(p@.take(it.index())),
    {
        let ghost q = it.index();
        assert(p@.take(q + 1).drop_last() =~= p@.take(q));
        assert(p@.take(q + 1).last() == ch);
        if ch == '\\' {
            push_char(&mut s, '/');
        } else {
            if ch == '"' {
                push_char(&mut s, '\\');
            }
            push_char(&mut s, ch);
        }
        assert(s@ =~= s0 + toml_path_body(p@.take(q + 1)));
    }
    assert(p@.take(p@.len() as int) =~= p@);
    push_char(&mut s, '"');
    assert(s@ =~= seq!['"'] + toml_path_body(p@) + seq!['"']);
    s
}

/// Quote a string as a TOML basic string: `"` and `\` are escaped, control
/// characters below 0x20 and DEL (0x7F), which TOML does not allow raw,
/// become `\uXXXX`; everything else is kept.
pub fn toml_basic_string(st: &str) -> (r: String)
    ensures
        r@ == seq!['"'] + toml_basic_body(st@) + seq!['"'],
{
    let mut out = String::new();
    push_char(&mut out, '"');
    let ghost s0 = out@;
    for ch in it: st.chars()
        invariant
            it.seq() == st@,
            out@ == s0 + toml_basic_body(st@.take(it.index())),
    {
        let ghost q = it.index();
        assert(st@.take(q + 1).drop_last() =~= st@.take(q));
        assert(st@.take(q + 1).last() == ch);
        if ch == '"' {
            push_char(&mut out, '\\');
            push_char(&mut out, '"');
        } else if ch == '\\' {
            push_char(&mut out, '\\');
            push_char(&mut out, '\\');
        } else if (ch as u32) < 0x20 || ch as u32 == 0x7F {
            push_char(&mut out, '\\');
            push_char(&mut out, 'u');
            push_hex_fixed(&mut out, ch as u32, 4);
        } else {
            push_char(&mut out, ch);
        }
        assert(out@ =~= s0 + toml_basic_body(st@.take(q + 1)));
    }
    assert(st@.take(st@.len() as int) =~= st@);
    push_char(&mut out, '"');
    assert(out@ =~= seq!['"'] + toml_basic_body(st@) + seq!['"']);
    out
}

/// A quoted TOML path.
pub open spec fn tpath(p: Seq<char>) -> Seq<char> { seq!['"'] + toml_path_body(p) + seq!['"'] }

/// The `untracked_stubs` entries: one `    "name",` line each.
pub open spec fn stub_lines(stubs: Seq<String>) -> Seq<char>
    decreases stubs.len(),
{
    if stubs.len() == 0 {
        Seq::empty()
    } else {
        stub_lines(stubs.drop_last()) + "    "@ + seq!['"'] + toml_basic_body(stubs.last()@) + seq!['"'] + ",\n"@
    }
}

/// `true` or `false`.
pub open spec fn bool_text(b: bool) -> Seq<char> { if b { "true"@ } else { "false"@ } }

/// The `config.toml` a recompiler configuration bundle holds.
pub open spec fn config_toml(
    path: Seq<char>, output_dir: Seq<char>, csv_path: Seq<char>, info: ElfFileInfo, nfuncs: nat,
    from_symbols: nat, heuristic: nat, sce_sdk_named: nat, stubs: Seq<String>,
) -> Seq<char> {
    "# Auto-generated by Aura Decomp Tool\n# Consumed by ps2recomp: `ps2recomp config.toml`\n#\n# Notes:\n# - ghidra_output points at the function CSV (Name,Start,End,Size).\n# - stubs/skip are intentionally empty; classify and populate stubs\n#   manually once you know which functions need a host-provided body.\n"@
        + "# - "@ + dec_nat(sce_sdk_named) + " function(s) were named via the embedded SCE SDK symbol DB.\n"@
        + "# - untracked_stubs lists the SDK-matched functions ps2recomp identified\n"@
        + "#   as library/SDK code. It is informational only and ignored by the recompiler.\n\n"@
        + "[general]\n"@
        + "input = "@ + tpath(path) + "\n"@
        + "output = "@ + tpath(output_dir) + "\n"@
        + "ghidra_output = "@ + tpath(csv_path) + "\n"@
        + "single_file_output = false\npatch_syscalls = false\npatch_cop0 = true\npatch_cache = true\nstubs = []\n"@
        + (if stubs.len() == 0 { "untracked_stubs = []\n"@ } else { "untracked_stubs = [\n"@ + stub_lines(stubs) + "]\n"@ })
        + "skip = []\n\n"@
        + "[ghidra_export]\n"@
        + "input_filename = "@ + tpath(info.filename@) + "\n"@
        + "entry_point = \"0x"@ + hex_fixed(info.entry_point as nat, 8) + "\"\n"@
        + "is_little_endian = "@ + bool_text(info.is_little_endian) + "\n"@
        + "sections = "@ + dec_nat(info.sections@.len()) + "\n"@
        + "symbols = "@ + dec_nat(info.symbols@.len()) + "\n"@
        + "relocations = "@ + dec_nat(info.relocations@.len()) + "\n"@
        + "function_count = "@ + dec_nat(nfuncs) + "\n"@
        + "from_symbols = "@ + dec_nat(from_symbols) + "\n"@
        + "from_jal_heuristic = "@ + dec_nat(heuristic) + "\n"@
        + "sce_sdk_named = "@ + dec_nat(sce_sdk_named) + "\n"@
}

fn push_line(t: &mut String, key: &str, value: &str)
    ensures
        final(t)@ == old(t)@ + key@ + value@ + "\n"@,
{
    push_str(t, key);
    push_str(t, value);
    push_str(t, "\n");
}

fn push_count(t: &mut String, key: &str, n: usize)
    ensures
        final(t)@ == old(t)@ + key@ + dec_nat(n as nat) + "\n"@,
{
    push_str(t, key);
    push_dec_u64(t, n as u64);
    push_str(t, "\n");
}

/// Build the `config.toml` body of a recompiler configuration bundle.
pub fn build_config_toml(
    path: &str,
    output_dir: &str,
    csv_path: &str,
    info: &ElfFileInfo,
    funcs: &[FunctionEntry],
    from_symbols: usize,
    heuristic: usize,
    sce_sdk_named: usize,
    untracked_stubs: &[String],
) -> (t: String)
    ensures
        t@ == config_toml(path@, output_dir@, csv_path@, *info, funcs@.len(), from_symbols as nat, heuristic as nat,
            sce_sdk_named as nat, untracked_stubs@),
{
    let mut t = owned("# Auto-generated by Aura Decomp Tool\n# Consumed by ps2recomp: `ps2recomp config.toml`\n#\n# Notes:\n# - ghidra_output points at the function CSV (Name,Start,End,Size).\n# - stubs/skip are intentionally empty; classify and populate stubs\n#   manually once you know which functions need a host-provided body.\n");
    push_str(&mut t, "# - ");
    push_dec_u64(&mut t, sce_sdk_named as u64);
    push_str(&mut t, " function(s) were named via the embedded SCE SDK symbol DB.\n");
    push_str(&mut t, "# - untracked_stubs lists the SDK-matched functions ps2recomp identified\n");
    push_str(&mut t, "#   as library/SDK code. It is informational only and ignored by the recompiler.\n\n");
    push_str(&mut t, "[general]\n");
    let a = toml_path(path);
    push_line(&mut t, "input = ", a.as_str());
    let b = toml_path(output_dir);
    push_line(&mut t, "output = ", b.as_str());
    let c = toml_path(csv_path);
    push_line(&mut t, "ghidra_output = ", c.as_str());
    push_str(&mut t, "single_file_output = false\npatch_syscalls = false\npatch_cop0 = true\npatch_cache = true\nstubs = []\n");
    let ghost before_stubs = t@;
    if untracked_stubs.len() == 0 {
        push_str(&mut t, "untracked_stubs = []\n");
    } else {
        push_str(&mut t, "untracked_stubs = [\n");
        let ghost t0 = t@;
        let mut i: usize = 0;
        while i < untracked_stubs.len()
            invariant
                i <= untracked_stubs.len(),
                t@ == t0 + stub_lines(untracked_stubs@.take(i as int)),
            decreases untracked_stubs.len() - i,
        {
            assert(untracked_stubs@.take(i + 1).drop_last() =~= untracked_stubs@.take(i as int));
            push_str(&mut t, "    ");
            let q = toml_basic_string(untracked_stubs[i].as_str());
            push_str(&mut t, q.as_str());
            push_str(&mut t, ",\n");
            assert(t@ =~= t0 + stub_lines(untracked_stubs@.take(i + 1)));
            i = i + 1;
        }
        assert(untracked_stubs@.take(i as int) =~= untracked_stubs@);
        push_str(&mut t, "]\n");
    }
    assert(t@ =~= before_stubs + (if untracked_stubs@.len() == 0 { "untracked_stubs = []\n"@ } else {
        "untracked_stubs = [\n"@ + stub_lines(untracked_stubs@) + "]\n"@ }));
    push_str(&mut t, "skip = []\n\n");
    push_str(&mut t, "[ghidra_export]\n");
    let f = toml_path(info.filename.as_str());
    push_line(&mut t, "input_filename = ", f.as_str());
    push_str(&mut t, "entry_point = \"0x");
    push_hex_fixed(&mut t, info.entry_point, 8);
    push_str(&mut t, "\"\n");
    push_line(&mut t, "is_little_endian = ", if info.is_little_endian { "true" } else { "false" });
    push_count(&mut t, "sections = ", info.sections.len());
    push_count(&mut t, "symbols = ", info.symbols.len());
    push_count(&mut t, "relocations = ", info.relocations.len());
    push_count(&mut t, "function_count = ", funcs.len());
    push_count(&mut t, "from_symbols = ", from_symbols);
    push_count(&mut t, "from_jal_heuristic = ", heuristic);
    push_count(&mut t, "sce_sdk_named = ", sce_sdk_named);
    assert(t@ =~= config_toml(path@, output_dir@, csv_path@, *info, funcs@.len(), from_symbols as nat, heuristic as nat,
        sce_sdk_named as nat, untracked_stubs@));
    t
}


// ---------------------------------------------------------------------------
// Function end refinement
// ---------------------------------------------------------------------------

/// The instruction makes the next word a branch delay slot: JR/JALR,
/// REGIMM branches, J/JAL, BEQ/BNE/BLEZ/BGTZ and BEQL/BNEL.
pub open spec fn spec_has_delay_slot(w: u32) -> bool {
    let op = op_of(w);
    if op == 0 {
        funct_of(w) == 8 || funct_of(w) == 9
    } else {
        op == 1 || op == 2 || op == 3 || op == 4 || op == 5 || op == 6 || op == 7 || op == 0x14 || op == 0x15
    }
}

/// True when `instr` is followed by a branch delay slot.
pub fn has_delay_slot(instr: u32) -> (b: bool)
    ensures
        b == spec_has_delay_slot(instr),
{
    let op: u32 = (instr >> 26) & 0x3F;
    if op == 0 {
        let funct: u32 = instr & 0x3F;
        return funct == 0x08 || funct == 0x09;
    }
    op == 0x01 || op == 0x02 || op == 0x03 || op == 0x04 || op == 0x05 || op == 0x06 || op == 0x07 || op == 0x14 || op == 0x15
}

/// The word at byte offset `off`, or 0 outside the data.
pub open spec fn word_or_zero(d: Seq<u8>, off: int, le: bool) -> u32 {
    if 0 <= off && off + 4 <= d.len() { word_at(d, off, le) } else { 0 }
}

/// Trim trailing `nop`s from `[start, end)` while at least two words remain,
/// stopping at a `nop` that is the delay slot of the word before it.
pub open spec fn trim_end(d: Seq<u8>, base: u32, start: u32, end: u32, le: bool) -> u32
    decreases end,
{
    if end < start + 8 {
        end
    } else {
        let last = end - base - 4;
        let prev = if last >= 4 { last - 4 } else { 0 };
        let p = word_or_zero(d, prev, le);
        if word_or_zero(d, last, le) != 0 || (p != 0 && spec_has_delay_slot(p)) {
            end
        } else {
            trim_end(d, base, start, (end - 4) as u32, le)
        }
    }
}

/// `refine_end` leaves the span untouched: it does not start inside the
/// data, or its end lies outside it.
pub open spec fn refine_keeps(len: nat, base: u32, start: u32, end: u32) -> bool {
    ((start as int - base as int) % 0x1_0000_0000) + 4 > len || end < base || end - base > len
}

/// The refined end of `[start, end)` in the section at `base`.
pub open spec fn spec_refine_end(d: Seq<u8>, base: u32, start: u32, end: u32, le: bool) -> u32 {
    if refine_keeps(d.len(), base, start, end) { end } else { trim_end(d, base, start, end, le) }
}

/// Trim trailing `nop` padding from a function's exclusive end: walking
/// back from `end_current`, drop `nop` words while at least two words remain,
/// but never a `nop` that is the delay slot of the preceding branch or jump.
/// Only ever shortens the end; returns it unchanged when the span is not
/// inside this section.
pub fn refine_end(data: &[u8], base: u32, start: u32, end_current: u32, is_little_endian: bool) -> (r: u32)
    requires
        refine_keeps(data.len() as nat, base, start, end_current) || (start >= base && start + 8 <= u32::MAX),
    ensures
        r == spec_refine_end(data@, base, start, end_current, is_little_endian),
        r <= end_current,
{
    let start_off: u32 = start.wrapping_sub(base);
    assert(start_off as int == (start as int - base as int) % 0x1_0000_0000);
    if start_off as usize > data.len() || data.len() - (start_off as usize) < 4 || end_current < base {
        return end_current;
    }
    let end_off: u32 = end_current - base;
    if end_off as usize > data.len() {
        return end_current;
    }
    let mut end = end_current;
    loop
        invariant
            start >= base && start + 8 <= u32::MAX,
            end <= end_current,
            !refine_keeps(data.len() as nat, base, start, end_current),
            trim_end(data@, base, start, end, is_little_endian) == trim_end(data@, base, start, end_current, is_little_endian),
        ensures
            end == trim_end(data@, base, start, end_current, is_little_endian),
        decreases end,
    {
        if end < start + 8 {
            break;
        }
        let last_off: u32 = end - base - 4;
        let w = read_u32(data, last_off as usize, is_little_endian);
        assert(w == word_or_zero(data@, end - base - 4, is_little_endian));
        let prev_off: u32 = if last_off >= 4 { last_off - 4 } else { 0 };
        let p = read_u32(data, prev_off as usize, is_little_endian);
        assert(p == word_or_zero(data@, prev_off as int, is_little_endian));
        if w != 0 {
            break;
        }
        if p != 0 && has_delay_slot(p) {
            break;
        }
        end = end - 4;
    }
    end
}

/// The executable section holding `a`, if any: the first one.
pub open spec fn holding_section(secs: Seq<ElfSection>, a: u32) -> Option<int> {
    if exists|i: int| 0 <= i < secs.len() && is_exec(#[trigger] secs[i]) && in_section(secs[i], a) {
        Some(choose|i: int| 0 <= i < secs.len() && is_exec(#[trigger] secs[i]) && in_section(secs[i], a)
            && forall|j: int| 0 <= j < i ==> !(is_exec(#[trigger] secs[j]) && in_section(secs[j], a)))
    } else {
        None
    }
}

/// The function after end refinement against the section holding its start.
pub open spec fn refined(secs: Seq<ElfSection>, f: (Seq<char>, u32, u32, u32), le: bool) -> (Seq<char>, u32, u32, u32) {
    match holding_section(secs, f.1) {
        Some(i) => {
            let ne = spec_refine_end(secs[i].data@, secs[i].address, f.1, f.2, le);
            if ne <= f.1 { f } else { (f.0, f.1, ne, (ne - f.1) as u32) }
        },
        None => f,
    }
}

/// Refining is defined on every function whose start lies in an executable section.
pub open spec fn refinable(secs: Seq<ElfSection>, funcs: Seq<FunctionEntry>) -> bool {
    forall|k: int| 0 <= k < funcs.len() ==> match holding_section(secs, (#[trigger] funcs[k]).start) {
        Some(i) => refine_keeps(secs[i].data@.len(), secs[i].address, funcs[k].start, funcs[k].end)
            || (funcs[k].start >= secs[i].address && funcs[k].start + 8 <= u32::MAX),
        None => true,
    }
}

pub(crate) fn find_holding(sections: &[ElfSection], a: u32) -> (r: Option<usize>)
    requires
        exec_sections_fit(sections@),
    ensures
        match r {
            Some(i) => holding_section(sections@, a) == Some(i as int) && i < sections@.len(),
            None => holding_section(sections@, a) is None,
        },
{
    let mut i: usize = 0;
    while i < sections.len()
        invariant
            exec_sections_fit(sections@),
            i <= sections.len(),
            forall|j: int| 0 <= j < i ==> !(is_exec(#[trigger] sections@[j]) && in_section(sections@[j], a)),
        decreases sections.len() - i,
    {
        let s = &sections[i];
        if s.flags & 4 != 0 {
            assert(is_exec(sections@[i as int]));
            if a >= s.address && (a as usize) < s.address as usize + s.data.len() {
                proof {
                    let w = i as int;
                    assert(is_exec(sections@[w]) && in_section(sections@[w], a)
                        && forall|j: int| 0 <= j < w ==> !(is_exec(#[trigger] sections@[j]) && in_section(sections@[j], a)));
                    let c = choose|c: int| 0 <= c < sections@.len() && is_exec(#[trigger] sections@[c]) && in_section(sections@[c], a)
                        && forall|j: int| 0 <= j < c ==> !(is_exec(#[trigger] sections@[j]) && in_section(sections@[j], a));
                    if c < w {
                        assert(!(is_exec(sections@[c]) && in_section(sections@[c], a)));
                    }
                    if c > w {
                        assert(!(is_exec(sections@[w]) && in_section(sections@[w], a)));
                    }
                }
                return Some(i);
            }
        }
        i = i + 1;
    }
    None
}

/// Apply [`refine_end`] to every function against the executable section that
/// holds its start. Functions outside every executable section, and those the
/// refinement would leave without a body, keep their end.
pub fn refine_function_boundaries(sections: &[ElfSection], funcs: &mut Vec<FunctionEntry>, is_little_endian: bool)
    requires
        exec_sections_fit(sections@),
        refinable(sections@, old(funcs)@),
    ensures
        final(funcs)@.len() == old(funcs)@.len(),
        forall|k: int| 0 <= k < final(funcs)@.len() ==>
            fe_view(#[trigger] final(funcs)@[k]) == refined(sections@, fe_view(old(funcs)@[k]), is_little_endian),
{
    let ghost f0 = funcs@;
    let mut k: usize = 0;
    while k < funcs.len()
        invariant
            exec_sections_fit(sections@),
            refinable(sections@, f0),
            funcs@.len() == f0.len(),
            k <= funcs@.len(),
            forall|q: int| 0 <= q < k ==> fe_view(#[trigger] funcs@[q]) == refined(sections@, fe_view(f0[q]), is_little_endian),
            forall|q: int| k <= q < funcs@.len() ==> funcs@[q] == f0[q],
        decreases f0.len() - k,
    {
        let start = funcs[k].start;
        let end = funcs[k].end;
        assert(funcs@[k as int] == f0[k as int]);
        match find_holding(sections, start) {
            Some(si) => {
                let sec = &sections[si];
                let new_end = refine_end(&sec.data, sec.address, start, end, is_little_endian);
                if new_end > start {
                    funcs[k].end = new_end;
                    funcs[k].size = new_end - start;
                }
            },
            None => {},
        }
        k = k + 1;
    }
}


// ---------------------------------------------------------------------------
// GameBoy (LR35902) disassembler
// ---------------------------------------------------------------------------

/// The byte at `i`, or 0 past the end.
pub open spec fn byte_or_zero(d: Seq<u8>, i: int) -> u8 {
    if 0 <= i < d.len() { d[i] } else { 0 }
}

/// The little-endian 16-bit value at `off`, missing bytes read as 0.
pub open spec fn le_u16_at(d: Seq<u8>, off: int) -> u16 {
    (byte_or_zero(d, off) as int + byte_or_zero(d, off + 1) as int * 256) as u16
}

/// Read a little-endian 16-bit value at `offset`; missing bytes read as 0.
pub fn read_le_u16(data: &[u8], offset: usize) -> (r: u16)
    ensures
        r == le_u16_at(data@, offset as int),
{
    let lo: u8 = if offset < data.len() { data[offset] } else { 0 };
    let hi: u8 = if offset < data.len() && offset + 1 < data.len() { data[offset + 1] } else { 0 };
    (lo as u16) + (hi as u16) * 256
}

/// `s` padded with spaces to at least `w` characters.
pub open spec fn pad(s: Seq<char>, w: nat) -> Seq<char> {
    if s.len() < w { s + Seq::new((w - s.len()) as nat, |i: int| ' ') } else { s }
}

/// Bytes as two-digit hex, separated by spaces.
pub open spec fn hex_bytes(b: Seq<u8>) -> Seq<char>
    decreases b.len(),
{
    if b.len() == 0 {
        Seq::empty()
    } else if b.len() == 1 {
        hex_fixed(b[0] as nat, 2)
    } else {
        hex_bytes(b.drop_last()) + " "@ + hex_fixed(b.last() as nat, 2)
    }
}

/// One listing line: `AAAAAAAA  HEX       MNEMONIC operands`.
pub open spec fn gb_line(addr: u32, bytes: Seq<u8>, mnemonic: Seq<char>, operands: Seq<char>) -> Seq<char> {
    hex_fixed(addr as nat, 8) + "  "@ + pad(hex_bytes(bytes), 8) + "  "@ + pad(mnemonic, 8) + " "@ + operands + "\n"@
}

fn char_count_upto(s: &str, limit: usize) -> (n: usize)
    ensures
        n == (if s@.len() < limit { s@.len() } else { limit as nat }),
{
    let mut n: usize = 0;
    for c in it: s.chars()
        invariant
            it.seq() == s@,
            n == (if it.index() < limit { it.index() } else { limit as int }),
    {
        if n < limit {
            n = n + 1;
        }
    }
    n
}

fn push_padded(out: &mut String, s: &str, w: usize)
    ensures
        final(out)@ == old(out)@ + pad(s@, w as nat),
{
    push_str(out, s);
    let n = char_count_upto(s, w);
    let ghost mid = out@;
    let mut k: usize = n;
    while k < w
        invariant
            n == (if s@.len() < w { s@.len() } else { w as nat }),
            n <= k <= w,
            out@ == mid + Seq::new((k - n) as nat, |i: int| ' '),
        decreases w - k,
    {
        push_char(out, ' ');
        assert(out@ =~= mid + Seq::new((k + 1 - n) as nat, |i: int| ' '));
        k = k + 1;
    }
    assert(out@ =~= old(out)@ + pad(s@, w as nat));
}

/// Append one disassembled GameBoy line: the address, the instruction bytes
/// in hex (padded to 8 characters), the mnemonic (padded to 8) and the operands.
pub fn emit(output: &mut String, addr: u32, bytes: &[u8], mnemonic: &str, operands: &str)
    ensures
        final(output)@ == old(output)@ + gb_line(addr, bytes@, mnemonic@, operands@),
{
    let mut hex = String::new();
    let mut i: usize = 0;
    while i < bytes.len()
        invariant
            i <= bytes.len(),
            hex@ == hex_bytes(bytes@.take(i as int)),
        decreases bytes.len() - i,
    {
        assert(bytes@.take(i + 1).drop_last() =~= bytes@.take(i as int));
        assert(bytes@.take(i + 1).last() == bytes@[i as int]);
        let ghost h0 = hex@;
        if i > 0 {
            push_char(&mut hex, ' ');
        }
        push_hex_fixed(&mut hex, bytes[i] as u32, 2);
        if i == 0 {
            assert(bytes@.take(1)[0] == bytes@[0]);
            assert(h0 =~= Seq::<char>::empty());
        } else {
            proof { reveal_strlit(" "); }
        }
        assert(hex@ =~= hex_bytes(bytes@.take(i + 1)));
        i = i + 1;
    }
    assert(bytes@.take(i as int) =~= bytes@);
    push_hex_fixed(output, addr, 8);
    push_str(output, "  ");
    push_padded(output, hex.as_str(), 8);
    push_str(output, "  ");
    push_padded(output, mnemonic, 8);
    push_str(output, " ");
    push_str(output, operands);
    push_str(output, "\n");
    assert(output@ =~= old(output)@ + gb_line(addr, bytes@, mnemonic@, operands@));
}

/// Opcodes that read one immediate byte.
pub open spec fn gb_two_byte(op: u8) -> bool {
    op == 0x06 || op == 0x0E || op == 0x18 || op == 0xC6 || op == 0xD6 || op == 0xE6 || op == 0xEE || op == 0xFE
}

/// The one-byte opcodes with a fixed (mnemonic, operands) text.
pub open spec fn gb_simple(op: u8) -> Option<(Seq<char>, Seq<char>)> {
    if op == 0x02 { Some(("ld"@, "(bc), a"@)) } else if op == 0x03 { Some(("inc"@, "bc"@)) }
    else if op == 0x04 { Some(("inc"@, "c"@)) } else if op == 0x05 { Some(("inc"@, "b"@)) }
    else if op == 0x07 { Some(("rlca"@, Seq::empty())) } else if op == 0xC9 { Some(("ret"@, Seq::empty())) }
    else if op == 0x09 { Some(("add hl, bc"@, Seq::empty())) } else if op == 0x0B { Some(("dec bc"@, Seq::empty())) }
    else if op == 0x0C { Some(("inc a"@, Seq::empty())) } else if op == 0x0D { Some(("dec a"@, Seq::empty())) }
    else if op == 0xE9 { Some(("jp hl"@, Seq::empty())) } else if op == 0xF3 { Some(("di"@, Seq::empty())) }
    else if op == 0xFB { Some(("ei"@, Seq::empty())) } else if op == 0x2F { Some(("cpl"@, Seq::empty())) }
    else if op == 0x3F { Some(("scf"@, Seq::empty())) } else if op == 0x3E { Some(("ccf"@, Seq::empty())) }
    else if op == 0x76 { Some(("halt"@, Seq::empty())) }
    else { None }
}

/// The immediate-byte opcodes' mnemonic and operand prefix.
pub open spec fn gb_imm8(op: u8) -> (Seq<char>, Seq<char>) {
    if op == 0x06 { ("ld"@, "c, 0x"@) } else if op == 0x0E { ("ld"@, "a, 0x"@) } else if op == 0xC6 { ("add"@, "a, 0x"@) }
    else if op == 0xD6 { ("sub"@, "0x"@) } else if op == 0xE6 { ("and"@, "0x"@) } else if op == 0xEE { ("xor"@, "0x"@) }
    else { ("cp"@, "0x"@) }
}

/// The decoded instruction at `off`: (bytes, mnemonic, operands, size).
/// A 16-bit operand is the little-endian pair of bytes after the opcode
/// (a byte past the end reads as 0).
pub open spec fn gb_decode(rom: Seq<u8>, off: int) -> (Seq<u8>, Seq<char>, Seq<char>, nat) {
    let op = rom[off];
    let v = le_u16_at(rom, off + 1);
    let lh = seq![op, (v % 256) as u8, (v / 256) as u8];
    if op == 0x00 { (seq![0u8], "nop"@, Seq::empty(), 1) }
    else if op == 0x01 { (lh, "ld"@, "bc, 0x"@ + hex_fixed(v as nat, 4), 3) }
    else if op == 0x08 { (lh, "ld"@, "(0x"@ + hex_fixed(v as nat, 4) + "), sp"@, 3) }
    else if op == 0xC3 { (lh, "jp"@, "0x"@ + hex_fixed(v as nat, 4), 3) }
    else if op == 0x18 {
        let r = rom[off + 1];
        let rel: int = if r < 128 { r as int } else { r - 256 };
        (seq![op, r], "jr"@, "+"@ + dec_int(rel), 2)
    }
    else if gb_two_byte(op) {
        let b = rom[off + 1];
        (seq![op, b], gb_imm8(op).0, gb_imm8(op).1 + hex_fixed(b as nat, 2), 2)
    }
    else if gb_simple(op) is Some { (seq![op], gb_simple(op).unwrap().0, gb_simple(op).unwrap().1, 1) }
    else { (seq![op], "db 0x"@ + hex_fixed(op as nat, 2), Seq::empty(), 1) }
}

/// The listing lines of at most `max` instructions from byte `off` on,
/// while inside the ROM (the address of each line is its offset).
pub open spec fn gb_lines(rom: Seq<u8>, off: nat, max: nat) -> Seq<char>
    decreases max,
{
    if off < rom.len() && max > 0 {
        let (b, m, o, size) = gb_decode(rom, off as int);
        gb_line(off as u32, b, m, o) + gb_lines(rom, off + size, (max - 1) as nat)
    } else {
        Seq::empty()
    }
}

/// Every one-byte immediate of those instructions lies inside the ROM.
pub open spec fn gb_stream_ok(rom: Seq<u8>, off: nat, max: nat) -> bool
    decreases max,
{
    if off < rom.len() && max > 0 {
        let op = rom[off as int];
        let size = gb_decode(rom, off as int).3;
        &&& (gb_two_byte(op) ==> off + 1 < rom.len())
        &&& gb_stream_ok(rom, off + size, (max - 1) as nat)
    } else {
        true
    }
}

fn gb_instr(rom: &[u8], offset: usize, out: &mut String) -> (size: usize)
    requires
        offset < rom.len(),
        rom.len() <= u32::MAX,
        gb_two_byte(rom@[offset as int]) ==> offset + 1 < rom.len(),
    ensures
        size == gb_decode(rom@, offset as int).3,
        1 <= size <= 3,
        ({
            let (b, m, o, sz) = gb_decode(rom@, offset as int);
            final(out)@ == old(out)@ + gb_line(offset as u32, b, m, o)
        }),
{
    let op = rom[offset];
    let addr: u32 = offset as u32;
    let ghost dec = gb_decode(rom@, offset as int);
    if op == 0x00 {
        emit(out, addr, &[0u8], "nop", "");
        proof { reveal_strlit(""); }
        assert(seq![0u8] =~= dec.0);
        1
    } else if op == 0x01 || op == 0x08 || op == 0xC3 {
        let v = read_le_u16(rom, offset + 1);
        let mut ops = if op == 0x01 { owned("bc, 0x") } else if op == 0x08 { owned("(0x") } else { owned("0x") };
        push_hex_fixed(&mut ops, v as u32, 4);
        if op == 0x08 {
            push_str(&mut ops, "), sp");
        }
        let bytes = [op, (v & 0xFF) as u8, ((v >> 8) & 0xFF) as u8];
        assert((v & 0xFF) as u8 == (v % 256) as u8 && ((v >> 8) & 0xFF) as u8 == (v / 256) as u8) by (bit_vector);
        assert(bytes@ =~= dec.0);
        emit(out, addr, &bytes, if op == 0xC3 { "jp" } else { "ld" }, ops.as_str());
        3
    } else if op == 0x18 {
        let r = rom[offset + 1];
        let rel: i64 = if r < 128 { r as i64 } else { r as i64 - 256 };
        let mut ops = owned("+");
        push_dec_i64(&mut ops, rel);
        let bytes = [op, r];
        assert(bytes@ =~= dec.0);
        emit(out, addr, &bytes, "jr", ops.as_str());
        2
    } else if op == 0x06 || op == 0x0E || op == 0xC6 || op == 0xD6 || op == 0xE6 || op == 0xEE || op == 0xFE {
        let b = rom[offset + 1];
        let mut ops = if op == 0x06 { owned("c, 0x") } else if op == 0x0E || op == 0xC6 { owned("a, 0x") } else { owned("0x") };
        push_hex_fixed(&mut ops, b as u32, 2);
        let m = if op == 0x06 || op == 0x0E { "ld" } else if op == 0xC6 { "add" } else if op == 0xD6 { "sub" }
            else if op == 0xE6 { "and" } else if op == 0xEE { "xor" } else { "cp" };
        let bytes = [op, b];
        assert(bytes@ =~= dec.0);
        emit(out, addr, &bytes, m, ops.as_str());
        2
    } else {
        let bytes = [op];
        assert(bytes@ =~= dec.0);
        let simple: Option<(&str, &str)> = if op == 0x02 { Some(("ld", "(bc), a")) } else if op == 0x03 { Some(("inc", "bc")) }
            else if op == 0x04 { Some(("inc", "c")) } else if op == 0x05 { Some(("inc", "b")) }
            else if op == 0x07 { Some(("rlca", "")) } else if op == 0xC9 { Some(("ret", "")) }
            else if op == 0x09 { Some(("add hl, bc", "")) } else if op == 0x0B { Some(("dec bc", "")) }
            else if op == 0x0C { Some(("inc a", "")) } else if op == 0x0D { Some(("dec a", "")) }
            else if op == 0xE9 { Some(("jp hl", "")) } else if op == 0xF3 { Some(("di", "")) }
            else if op == 0xFB { Some(("ei", "")) } else if op == 0x2F { Some(("cpl", "")) }
            else if op == 0x3F { Some(("scf", "")) } else if op == 0x3E { Some(("ccf", "")) }
            else if op == 0x76 { Some(("halt", "")) } else { None };
        proof { reveal_strlit(""); }
        match simple {
            Some((m, o)) => {
                emit(out, addr, &bytes, m, o);
            },
            None => {
                let mut m = owned("db 0x");
                push_hex_fixed(&mut m, op as u32, 2);
                emit(out, addr, &bytes, m.as_str(), "");
            },
        }
        1
    }
}

/// Disassemble a GameBoy ROM from `base_addr` (offsets are addresses) into a
/// text listing with a `GameBoy Z80 Disassembly (ROM, N bytes)` header and
/// at most `max_instructions` instructions (default 4096).
/// Empty data, or a base past the end, is an error.
pub fn disassemble_gb_data(rom_data: Vec<u8>, base_addr: u32, max_instructions: Option<usize>) -> (r: Result<String, String>)
    requires
        rom_data.len() <= u32::MAX,
        rom_data.len() + 3 <= usize::MAX,
        base_addr == 0 || base_addr >= rom_data.len(),
        gb_stream_ok(rom_data@, base_addr as nat, (match max_instructions { Some(m) => m, None => 4096usize }) as nat),
    ensures
        (rom_data.len() == 0 || base_addr >= rom_data.len()) <==> r is Err,
        r matches Err(e) ==> e@ == "No ROM data to disassemble"@,
        r matches Ok(out) ==> out@ == "GameBoy Z80 Disassembly (ROM, "@ + dec_nat(rom_data.len() as nat) + " bytes)\n\n"@
            + gb_lines(rom_data@, 0, (match max_instructions { Some(m) => m, None => 4096usize }) as nat),
{
    if rom_data.len() == 0 || base_addr as usize >= rom_data.len() {
        return Err(owned("No ROM data to disassemble"));
    }
    let max_instr: usize = match max_instructions { Some(m) => m, None => 4096 };
    let mut output = owned("GameBoy Z80 Disassembly (ROM, ");
    push_dec_u64(&mut output, rom_data.len() as u64);
    push_str(&mut output, " bytes)\n\n");
    let ghost head = output@;
    let mut offset: usize = 0;
    let mut count: usize = 0;
    while offset < rom_data.len() && count < max_instr
        invariant
            rom_data.len() <= u32::MAX,
            rom_data.len() + 3 <= usize::MAX,
            offset <= rom_data.len() + 2,
            count <= max_instr,
            gb_stream_ok(rom_data@, offset as nat, (max_instr - count) as nat),
            output@ + gb_lines(rom_data@, offset as nat, (max_instr - count) as nat) == head + gb_lines(rom_data@, 0, max_instr as nat),
        decreases max_instr - count,
    {
        let ghost before = output@;
        let size = gb_instr(&rom_data, offset, &mut output);
        assert(output@ + gb_lines(rom_data@, (offset + size) as nat, (max_instr - count - 1) as nat) == before + gb_lines(rom_data@, offset as nat, (max_instr - count) as nat));
        offset = offset + size;
        count = count + 1;
    }
    assert(gb_lines(rom_data@, offset as nat, (max_instr - count) as nat) =~= Seq::<char>::empty());
    assert(output@ =~= head + gb_lines(rom_data@, 0, max_instr as nat));
    Ok(output)
}


/// GameBoy ROM header fields.
#[derive(Debug, Clone)]
pub struct GbHeader {
    pub title: String,
    pub manufacturer_code: String,
    pub cgb_flag: u8,
    /// `gb` or `cgb`.
    pub mode: String,
    pub sgb_flag: u8,
    pub licensee_code: Option<(u8, u8)>,
    pub version: u8,
    pub rom_size: usize,
    pub ram_size: usize,
    pub destination: u8,
    pub header_checksum: u8,
    pub global_checksum: u16,
}

/// A single LR35902 instruction of a listing.
#[derive(Debug, Clone)]
pub struct Z80Instruction {
    pub address: u32,
    pub bytes: Vec<u8>,
    pub mnemonic: String,
    pub operand: String,
    pub size: u8,
}

/// Result of GameBoy ROM identification.
#[derive(Debug, Clone)]
pub struct GbIdentification {
    pub is_gameboy: bool,
    pub header: Option<GbHeader>,
    pub rom_data: Vec<u8>,
}

/// The ROM size code's bytes.
pub open spec fn gb_rom_size(code: u8) -> nat {
    let idx = (code & 0x0Cu8) >> 2u8;
    if idx == 0 { 256 * 1024 } else if idx == 1 { 512 * 1024 } else if idx == 2 { 1024 * 1024 } else { 2 * 1024 * 1024 }
}

/// The RAM size code's bytes.
pub open spec fn gb_ram_size(code: u8) -> nat {
    let idx = (code & 0xE0u8) >> 5u8;
    if idx == 0 { 0 } else if idx == 1 { 2 * 1024 } else if idx == 2 { 8 * 1024 } else if idx == 3 { 32 * 1024 }
    else if idx == 4 { 64 * 1024 } else if idx == 5 { 16 * 1024 } else { 0 }
}

/// Identify a GameBoy ROM by the Nintendo logo at 0x104 and, when present,
/// parse its header (title and maker code with NUL/space padding trimmed,
/// CGB/SGB flags, licensee, version, ROM/RAM sizes, destination, checksums).
/// Anything shorter than 0x150 bytes or without the logo is "not a GameBoy".
pub fn identify_gb_data(data: &[u8]) -> (r: Result<GbIdentification, String>)
    ensures
        r matches Ok(id) && ({
            let is_gb = data@.len() >= 0x150 && bytes_at(data@, 0x104, pat_gb_logo());
            &&& id.is_gameboy == is_gb
            &&& id.rom_data@ == (if is_gb { data@ } else { Seq::empty() })
            &&& is_gb == id.header is Some
            &&& id.header matches Some(h) ==> {
                &&& h.title@ == crate::text::trim_set(crate::text::utf8_lossy_text(data@.subrange(0x134, 0x144)), set!['\0', ' '])
                &&& h.manufacturer_code@ == crate::text::trim_set(crate::text::utf8_lossy_text(data@.subrange(0x13F, 0x143)), set!['\0'])
                &&& h.cgb_flag == data@[0x143]
                &&& h.mode@ == (if data@[0x143] != 0 { "cgb"@ } else { "gb"@ })
                &&& h.sgb_flag == data@[0x146]
                &&& h.licensee_code == (if data@[0x144] != 0xFF { Some((data@[0x144], data@[0x145])) } else { None })
                &&& h.version == data@[0x14C]
                &&& h.rom_size == gb_rom_size(data@[0x148])
                &&& h.ram_size == gb_ram_size(data@[0x149])
                &&& h.destination == data@[0x14A]
                &&& h.header_checksum == data@[0x14D]
                &&& h.global_checksum == data@[0x14E] as int * 256 + data@[0x14F] as int
            }
        }),
{
    let logo = vec![0xCEu8, 0xEDu8, 0x66u8, 0x66u8, 0xCCu8, 0x0Du8, 0x00u8, 0x0Bu8, 0x03u8, 0x73u8, 0x00u8, 0x83u8,
        0x00u8, 0x0Cu8, 0x00u8, 0x0Du8, 0x00u8, 0x08u8, 0x11u8, 0x1Fu8, 0x88u8, 0x89u8, 0x00u8, 0x0Eu8,
        0xDCu8, 0xCCu8, 0x6Eu8, 0xE6u8, 0xDDu8, 0xDDu8, 0xD9u8, 0x99u8, 0xBBu8, 0xBBu8, 0x67u8, 0x63u8,
        0x6Eu8, 0x0Eu8, 0xECu8, 0xCCu8, 0xDDu8, 0xDCu8, 0x99u8, 0x9Fu8, 0xBBu8, 0xB9u8, 0x33u8, 0x3Eu8];
    if data.len() < 0x150 || !match_at(data, 0x104, &logo) {
        return Ok(GbIdentification { is_gameboy: false, header: None, rom_data: Vec::new() });
    }
    let title_raw = utf8_lossy(&data[0x134..0x144]);
    let title = crate::text::trim_nul(&title_raw, true);
    let maker_raw = utf8_lossy(&data[0x13F..0x143]);
    let manufacturer_code = crate::text::trim_nul(&maker_raw, false);
    let cgb_flag = data[0x143];
    let mode = if cgb_flag != 0 { owned("cgb") } else { owned("gb") };
    let sgb_flag = data[0x146];
    let hi = data[0x144];
    let lo = data[0x145];
    let licensee_code = if hi != 0xFF { Some((hi, lo)) } else { None };
    let rom_idx: u8 = (data[0x148] & 0x0C) >> 2;
    let rom_size: usize = if rom_idx == 0 { 256 * 1024 } else if rom_idx == 1 { 512 * 1024 } else if rom_idx == 2 { 1024 * 1024 } else { 2 * 1024 * 1024 };
    let ram_idx: u8 = (data[0x149] & 0xE0) >> 5;
    let ram_size: usize = if ram_idx == 0 { 0 } else if ram_idx == 1 { 2 * 1024 } else if ram_idx == 2 { 8 * 1024 }
        else if ram_idx == 3 { 32 * 1024 } else if ram_idx == 4 { 64 * 1024 } else if ram_idx == 5 { 16 * 1024 } else { 0 };
    let global_checksum: u16 = (data[0x14E] as u16) * 256 + (data[0x14F] as u16);
    let header = GbHeader {
        title,
        manufacturer_code,
        cgb_flag,
        mode,
        sgb_flag,
        licensee_code,
        version: data[0x14C],
        rom_size,
        ram_size,
        destination: data[0x14A],
        header_checksum: data[0x14D],
        global_checksum,
    };
    Ok(GbIdentification { is_gameboy: true, header: Some(header), rom_data: vstd::slice::slice_to_vec(data) })
}

} // verus!
