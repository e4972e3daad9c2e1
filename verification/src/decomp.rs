//! MIPS to pseudocode decompiler: lifts each instruction to a typed IR
//! statement ([`IrStmt`]) and renders a function's CFG blocks, in address
//! order, as C-like text (labels for branch targets, `return;` for `jr $ra`).

use vstd::prelude::*;
use std::collections::{BTreeMap, BTreeSet};
use crate::cfg::{decode_flow, spec_decode_flow, BasicBlock, CfgEdge, EdgeKind, Flow, FunctionCfg};
use vstd::std_specs::btree::increasing_seq;
use vstd::std_specs::iter::IteratorSpec;
use crate::ps1_disasm::{reg_name, reg_str};
use crate::text::{
    dec_int, dec_nat, dec_string, hex8_0x, hex_0x, hex_fixed, owned, push_char, push_dec_i64, push_dec_u64,
    push_hex_fixed, push_hex_min, push_str,
};

verus! {

broadcast use vstd::laws_cmp::group_laws_cmp, vstd::std_specs::btree::group_btree_axioms;

// ---------------------------------------------------------------------------
// Register names
// ---------------------------------------------------------------------------

fn reg_static(i: u32) -> (s: &'static str)
    requires
        i < 32,
    ensures
        s == reg_str(i as int),
{
    if i == 0 { "$zero" } else if i == 1 { "$at" } else if i == 2 { "$v0" } else if i == 3 { "$v1" }
    else if i == 4 { "$a0" } else if i == 5 { "$a1" } else if i == 6 { "$a2" } else if i == 7 { "$a3" }
    else if i == 8 { "$t0" } else if i == 9 { "$t1" } else if i == 10 { "$t2" } else if i == 11 { "$t3" }
    else if i == 12 { "$t4" } else if i == 13 { "$t5" } else if i == 14 { "$t6" } else if i == 15 { "$t7" }
    else if i == 16 { "$s0" } else if i == 17 { "$s1" } else if i == 18 { "$s2" } else if i == 19 { "$s3" }
    else if i == 20 { "$s4" } else if i == 21 { "$s5" } else if i == 22 { "$s6" } else if i == 23 { "$s7" }
    else if i == 24 { "$t8" } else if i == 25 { "$t9" } else if i == 26 { "$k0" } else if i == 27 { "$k1" }
    else if i == 28 { "$gp" } else if i == 29 { "$sp" } else if i == 30 { "$fp" } else { "$ra" }
}

/// The `$`-prefixed ABI name of register `idx`.
pub fn reg(idx: u32) -> (r: String)
    requires
        idx < 32,
    ensures
        r@ == reg_name(idx as int),
{
    owned(reg_static(idx))
}

// ---------------------------------------------------------------------------
// IR
// ---------------------------------------------------------------------------

/// A typed IR operand.
#[derive(Debug, Clone)]
pub enum Operand {
    Reg(String),
    Imm(i64),
    /// Hex address constant.
    Addr(u32),
    /// Memory reference `*(base + offset)`.
    Mem { base: String, offset: i32 },
    /// A resolved call target name or address.
    CallTarget(String),
}

/// A typed IR statement: the lifted form of one MIPS instruction.
#[derive(Debug, Clone)]
pub enum IrStmt {
    /// `dst = src`.
    Assign { dst: String, src: String },
    /// `dst = a op b`.
    BinOp { dst: String, op: String, a: String, b: String },
    /// `dst = op a`.
    UnaryOp { dst: String, op: String, a: String },
    /// `dst = *(base + offset)`.
    Load { dst: String, base: String, offset: i32, size: u8 },
    /// `*(base + offset) = src`.
    Store { base: String, offset: i32, src: String, size: u8 },
    /// `target()`.
    Call { target: String },
    /// `return [value]`.
    Return { value: Option<String> },
    /// `goto label`.
    Goto { label: String },
    /// `if (cond) goto label`.
    CondGoto { cond: String, label: String },
    /// A label.
    Label { label: String },
    /// An annotation.
    Comment(String),
    /// An unrecognised instruction.
    Raw { addr: u32, word: u32 },
    /// No-op (suppressed in output).
    Nop,
}

/// An IR statement with its text fields as character sequences.
pub enum IrText {
    Assign { dst: Seq<char>, src: Seq<char> },
    BinOp { dst: Seq<char>, op: Seq<char>, a: Seq<char>, b: Seq<char> },
    UnaryOp { dst: Seq<char>, op: Seq<char>, a: Seq<char> },
    Load { dst: Seq<char>, base: Seq<char>, offset: i32, size: u8 },
    Store { base: Seq<char>, offset: i32, src: Seq<char>, size: u8 },
    Call { target: Seq<char> },
    Return { value: Option<Seq<char>> },
    Goto { label: Seq<char> },
    CondGoto { cond: Seq<char>, label: Seq<char> },
    Label { label: Seq<char> },
    Comment(Seq<char>),
    Raw { addr: u32, word: u32 },
    Nop,
}

/// The text form of a statement.
pub open spec fn ir_text(s: IrStmt) -> IrText {
    match s {
        IrStmt::Assign { dst, src } => IrText::Assign { dst: dst@, src: src@ },
        IrStmt::BinOp { dst, op, a, b } => IrText::BinOp { dst: dst@, op: op@, a: a@, b: b@ },
        IrStmt::UnaryOp { dst, op, a } => IrText::UnaryOp { dst: dst@, op: op@, a: a@ },
        IrStmt::Load { dst, base, offset, size } => IrText::Load { dst: dst@, base: base@, offset, size },
        IrStmt::Store { base, offset, src, size } => IrText::Store { base: base@, offset, src: src@, size },
        IrStmt::Call { target } => IrText::Call { target: target@ },
        IrStmt::Return { value } => IrText::Return { value: match value { Some(v) => Some(v@), None => None } },
        IrStmt::Goto { label } => IrText::Goto { label: label@ },
        IrStmt::CondGoto { cond, label } => IrText::CondGoto { cond: cond@, label: label@ },
        IrStmt::Label { label } => IrText::Label { label: label@ },
        IrStmt::Comment(c) => IrText::Comment(c@),
        IrStmt::Raw { addr, word } => IrText::Raw { addr, word },
        IrStmt::Nop => IrText::Nop,
    }
}

// ---------------------------------------------------------------------------
// Lifting specification
// ---------------------------------------------------------------------------

pub open spec fn f_op(w: u32) -> u32 { (w >> 26u32) & 0x3Fu32 }
pub open spec fn f_rs(w: u32) -> int { ((w >> 21u32) & 0x1Fu32) as int }
pub open spec fn f_rt(w: u32) -> int { ((w >> 16u32) & 0x1Fu32) as int }
pub open spec fn f_rd(w: u32) -> int { ((w >> 11u32) & 0x1Fu32) as int }
pub open spec fn f_shamt(w: u32) -> nat { ((w >> 6u32) & 0x1Fu32) as nat }
pub open spec fn f_funct(w: u32) -> u32 { w & 0x3Fu32 }
pub open spec fn f_imm(w: u32) -> nat { (w & 0xFFFFu32) as nat }
pub open spec fn f_simm(w: u32) -> int { if f_imm(w) < 0x8000 { f_imm(w) as int } else { f_imm(w) - 0x10000 } }
pub open spec fn f_branch(w: u32, addr: u32) -> u32 { (addr as int + 4 + f_simm(w) * 4) as u32 }
pub open spec fn f_jump(w: u32, addr: u32) -> u32 {
    (((addr as int + 4) as u32) & 0xF000_0000u32) | ((w & 0x03FF_FFFFu32) << 2u32)
}

proof fn lemma_fields(w: u32)
    ensures
        f_op(w) < 64, 0 <= f_rs(w) < 32, 0 <= f_rt(w) < 32, 0 <= f_rd(w) < 32, f_shamt(w) < 32,
        f_funct(w) < 64, f_imm(w) < 65536, (w & 0xFFFFFu32) < 0x10_0000,
{
    assert((w >> 26u32) & 0x3Fu32 < 64 && (w >> 21u32) & 0x1Fu32 < 32 && (w >> 16u32) & 0x1Fu32 < 32
        && (w >> 11u32) & 0x1Fu32 < 32 && (w >> 6u32) & 0x1Fu32 < 32 && w & 0x3Fu32 < 64 && w & 0xFFFFu32 < 65536
        && w & 0xFFFFFu32 < 0x10_0000) by (bit_vector);
}

/// The label text `loc_XXXXXXXX` of an address.
pub open spec fn label_text(addr: u32) -> Seq<char> {
    "loc_"@ + hex_fixed(addr as nat, 8)
}

pub open spec fn binop(dst: int, op: &'static str, a: Seq<char>, b: Seq<char>) -> IrText {
    IrText::BinOp { dst: reg_name(dst), op: op@, a, b }
}

/// The lifted form of a SPECIAL (op 0) word.
pub open spec fn spec_lift_special(w: u32, addr: u32) -> IrText {
    let rs = f_rs(w);
    let rt = f_rt(w);
    let rd = f_rd(w);
    let f = f_funct(w);
    let sh = dec_nat(f_shamt(w));
    if f == 0x00 { binop(rd, "<<", reg_name(rt), sh) }
    else if f == 0x02 { binop(rd, ">>", reg_name(rt), sh) }
    else if f == 0x03 { binop(rd, ">>a", reg_name(rt), sh) }
    else if f == 0x04 { binop(rd, "<<", reg_name(rt), reg_name(rs)) }
    else if f == 0x06 { binop(rd, ">>", reg_name(rt), reg_name(rs)) }
    else if f == 0x07 { binop(rd, ">>a", reg_name(rt), reg_name(rs)) }
    else if f == 0x08 { IrText::Goto { label: reg_name(rs) } }
    else if f == 0x09 { IrText::Call { target: reg_name(rs) } }
    else if f == 0x0C { IrText::Comment("syscall(0x"@ + hex_fixed((w & 0xFFFFFu32) as nat, 5) + ")"@) }
    else if f == 0x0D { IrText::Comment("break(0x"@ + hex_fixed((w & 0xFFFFFu32) as nat, 5) + ")"@) }
    else if f == 0x10 { IrText::Assign { dst: reg_name(rd), src: "hi"@ } }
    else if f == 0x11 { IrText::Assign { dst: "hi"@, src: reg_name(rs) } }
    else if f == 0x12 { IrText::Assign { dst: reg_name(rd), src: "lo"@ } }
    else if f == 0x13 { IrText::Assign { dst: "lo"@, src: reg_name(rs) } }
    else if f == 0x18 { IrText::Comment("{lo,hi} = (i64)"@ + reg_name(rs) + " * (i64)"@ + reg_name(rt)) }
    else if f == 0x19 { IrText::Comment("{lo,hi} = (u64)"@ + reg_name(rs) + " * (u64)"@ + reg_name(rt)) }
    else if f == 0x1A {
        IrText::Comment("lo = "@ + reg_name(rs) + "/"@ + reg_name(rt) + " ; hi = "@ + reg_name(rs) + "%"@ + reg_name(rt))
    }
    else if f == 0x1B {
        IrText::Comment("lo = "@ + reg_name(rs) + "/"@ + reg_name(rt) + " (u) ; hi = "@ + reg_name(rs) + "%"@ + reg_name(rt) + " (u)"@)
    }
    else if f == 0x20 || f == 0x21 { binop(rd, "+", reg_name(rs), reg_name(rt)) }
    else if f == 0x22 || f == 0x23 { binop(rd, "-", reg_name(rs), reg_name(rt)) }
    else if f == 0x24 { binop(rd, "&", reg_name(rs), reg_name(rt)) }
    else if f == 0x25 { binop(rd, "|", reg_name(rs), reg_name(rt)) }
    else if f == 0x26 { binop(rd, "^", reg_name(rs), reg_name(rt)) }
    else if f == 0x27 { IrText::UnaryOp { dst: reg_name(rd), op: "~"@, a: "("@ + reg_name(rs) + " | "@ + reg_name(rt) + ")"@ } }
    else if f == 0x2A { binop(rd, "<", reg_name(rs), reg_name(rt)) }
    else if f == 0x2B { binop(rd, "<", "(u)"@ + reg_name(rs), "(u)"@ + reg_name(rt)) }
    else { IrText::Raw { addr, word: w } }
}

/// The name a call to `target` renders as: its known name, else `0xXXXXXXXX`.
pub open spec fn call_name(target: u32, known: Map<u32, String>) -> Seq<char> {
    if known.contains_key(target) { known[target]@ } else { hex8_0x(target as nat) }
}

/// The lifted form of a non-SPECIAL word.
pub open spec fn spec_lift_other(w: u32, addr: u32, known: Map<u32, String>) -> IrText {
    let op = f_op(w);
    let rs = f_rs(w);
    let rt = f_rt(w);
    let si = f_simm(w);
    let bt = label_text(f_branch(w, addr));
    if op == 0x01 {
        let r = f_rt(w);
        let cond = if r == 0x00 || r == 0x02 || r == 0x10 {
            reg_name(rs) + " < 0"@
        } else if r == 0x01 || r == 0x03 || r == 0x11 {
            reg_name(rs) + " >= 0"@
        } else {
            "REGIMM rt="@ + dec_nat(r as nat)
        };
        IrText::CondGoto { cond, label: bt }
    }
    else if op == 0x02 { IrText::Goto { label: label_text(f_jump(w, addr)) } }
    else if op == 0x03 { IrText::Call { target: call_name(f_jump(w, addr), known) } }
    else if op == 0x04 || op == 0x14 { IrText::CondGoto { cond: reg_name(rs) + " == "@ + reg_name(rt), label: bt } }
    else if op == 0x05 || op == 0x15 { IrText::CondGoto { cond: reg_name(rs) + " != "@ + reg_name(rt), label: bt } }
    else if op == 0x06 { IrText::CondGoto { cond: reg_name(rs) + " <= 0"@, label: bt } }
    else if op == 0x07 { IrText::CondGoto { cond: reg_name(rs) + " > 0"@, label: bt } }
    else if op == 0x08 || op == 0x09 { binop(rt, "+", reg_name(rs), dec_int(si)) }
    else if op == 0x0A { binop(rt, "<", reg_name(rs), dec_int(si)) }
    else if op == 0x0B { binop(rt, "<", "(u)"@ + reg_name(rs), "(u)"@ + dec_int(si)) }
    else if op == 0x0C { binop(rt, "&", reg_name(rs), hex_0x(f_imm(w))) }
    else if op == 0x0D { binop(rt, "|", reg_name(rs), hex_0x(f_imm(w))) }
    else if op == 0x0E { binop(rt, "^", reg_name(rs), hex_0x(f_imm(w))) }
    else if op == 0x0F { IrText::Assign { dst: reg_name(rt), src: hex_0x(f_imm(w)) + " << 16"@ } }
    else if op == 0x20 || op == 0x24 { IrText::Load { dst: reg_name(rt), base: reg_name(rs), offset: si as i32, size: 1 } }
    else if op == 0x21 || op == 0x25 { IrText::Load { dst: reg_name(rt), base: reg_name(rs), offset: si as i32, size: 2 } }
    else if op == 0x23 { IrText::Load { dst: reg_name(rt), base: reg_name(rs), offset: si as i32, size: 4 } }
    else if op == 0x28 { IrText::Store { base: reg_name(rs), offset: si as i32, src: reg_name(rt), size: 1 } }
    else if op == 0x29 { IrText::Store { base: reg_name(rs), offset: si as i32, src: reg_name(rt), size: 2 } }
    else if op == 0x2B { IrText::Store { base: reg_name(rs), offset: si as i32, src: reg_name(rt), size: 4 } }
    else if op == 0x2F { IrText::Comment("cache "@ + dec_int(si) + "("@ + reg_name(rs) + ")"@) }
    else { IrText::Raw { addr, word: w } }
}

/// The lifted form of one MIPS word at `addr`.
pub open spec fn spec_lift(w: u32, addr: u32, known: Map<u32, String>) -> IrText {
    if w == 0 {
        IrText::Nop
    } else if f_op(w) == 0 {
        spec_lift_special(w, addr)
    } else {
        spec_lift_other(w, addr, known)
    }
}

/// A SPECIAL register-register ALU word lifts to `rd = rs OP rt`: the
/// destination is the register in bits 15..11, the first operand the one in
/// bits 25..21 and the second the one in bits 20..16 (shifts by a register
/// shift `rt` by `rs`; `nor` is the complement of `rs | rt`).
pub proof fn lifted_alu_operands(w: u32, addr: u32, known: Map<u32, String>)
    requires
        (w >> 26u32) & 0x3Fu32 == 0,
    ensures
        ({
            let f = w & 0x3Fu32;
            let d = reg_name(((w >> 11u32) & 0x1Fu32) as int);
            let s = reg_name(((w >> 21u32) & 0x1Fu32) as int);
            let t = reg_name(((w >> 16u32) & 0x1Fu32) as int);
            let ir = spec_lift(w, addr, known);
            &&& (f == 0x20 || f == 0x21) ==> ir == IrText::BinOp { dst: d, op: "+"@, a: s, b: t }
            &&& (f == 0x22 || f == 0x23) ==> ir == IrText::BinOp { dst: d, op: "-"@, a: s, b: t }
            &&& f == 0x24 ==> ir == IrText::BinOp { dst: d, op: "&"@, a: s, b: t }
            &&& f == 0x25 ==> ir == IrText::BinOp { dst: d, op: "|"@, a: s, b: t }
            &&& f == 0x26 ==> ir == IrText::BinOp { dst: d, op: "^"@, a: s, b: t }
            &&& f == 0x27 ==> ir == IrText::UnaryOp { dst: d, op: "~"@, a: "("@ + s + " | "@ + t + ")"@ }
            &&& f == 0x2A ==> ir == IrText::BinOp { dst: d, op: "<"@, a: s, b: t }
            &&& f == 0x2B ==> ir == IrText::BinOp { dst: d, op: "<"@, a: "(u)"@ + s, b: "(u)"@ + t }
            &&& f == 0x04 ==> ir == IrText::BinOp { dst: d, op: "<<"@, a: t, b: s }
            &&& f == 0x06 ==> ir == IrText::BinOp { dst: d, op: ">>"@, a: t, b: s }
            &&& f == 0x07 ==> ir == IrText::BinOp { dst: d, op: ">>a"@, a: t, b: s }
        }),
{
    crate::ps1_disasm::lemma_funct_nonzero(w);
}

/// Loads lift to `rt = *(rs + simm)` and stores to `*(rs + simm) = rt`,
/// with rt the register of bits 20..16, rs that of bits 25..21, simm the
/// sign-extended low 16 bits and the width given by the opcode (bytes for
/// 0x20/0x24/0x28, halves for 0x21/0x25/0x29, words for 0x23/0x2B); the
/// immediate ALU forms lift to `rt = rs OP imm`.
pub proof fn lifted_memory_and_immediates(w: u32, addr: u32, known: Map<u32, String>)
    ensures
        ({
            let op = (w >> 26u32) & 0x3Fu32;
            let t = reg_name(((w >> 16u32) & 0x1Fu32) as int);
            let s = reg_name(((w >> 21u32) & 0x1Fu32) as int);
            let imm = (w & 0xFFFFu32) as int;
            let simm = if imm < 0x8000 { imm } else { imm - 0x10000 };
            let ir = spec_lift(w, addr, known);
            &&& (op == 0x20 || op == 0x24) ==> ir == IrText::Load { dst: t, base: s, offset: simm as i32, size: 1 }
            &&& (op == 0x21 || op == 0x25) ==> ir == IrText::Load { dst: t, base: s, offset: simm as i32, size: 2 }
            &&& op == 0x23 ==> ir == IrText::Load { dst: t, base: s, offset: simm as i32, size: 4 }
            &&& op == 0x28 ==> ir == IrText::Store { base: s, offset: simm as i32, src: t, size: 1 }
            &&& op == 0x29 ==> ir == IrText::Store { base: s, offset: simm as i32, src: t, size: 2 }
            &&& op == 0x2B ==> ir == IrText::Store { base: s, offset: simm as i32, src: t, size: 4 }
            &&& (op == 0x08 || op == 0x09) ==> ir == IrText::BinOp { dst: t, op: "+"@, a: s, b: dec_int(simm) }
            &&& op == 0x0C ==> ir == IrText::BinOp { dst: t, op: "&"@, a: s, b: hex_0x(imm as nat) }
            &&& op == 0x0D ==> ir == IrText::BinOp { dst: t, op: "|"@, a: s, b: hex_0x(imm as nat) }
            &&& op == 0x0E ==> ir == IrText::BinOp { dst: t, op: "^"@, a: s, b: hex_0x(imm as nat) }
        }),
{
    crate::ps1_disasm::lemma_funct_nonzero(w);
}

/// Shifts by an immediate lift to `rd = rt SHIFT shamt` (shamt in decimal,
/// bits 10..6), `lui` to `rt = imm << 16`, `jr` to a `goto` through `rs` and
/// `jalr` to a call through `rs`; the all-zero word is a no-op.
pub proof fn lifted_shifts_and_jumps(w: u32, addr: u32, known: Map<u32, String>)
    ensures
        ({
            let op = (w >> 26u32) & 0x3Fu32;
            let f = w & 0x3Fu32;
            let d = reg_name(((w >> 11u32) & 0x1Fu32) as int);
            let s = reg_name(((w >> 21u32) & 0x1Fu32) as int);
            let t = reg_name(((w >> 16u32) & 0x1Fu32) as int);
            let sh = dec_nat(((w >> 6u32) & 0x1Fu32) as nat);
            let ir = spec_lift(w, addr, known);
            &&& w == 0 ==> ir == IrText::Nop
            &&& (op == 0 && w != 0 && f == 0) ==> ir == IrText::BinOp { dst: d, op: "<<"@, a: t, b: sh }
            &&& (op == 0 && f == 2) ==> ir == IrText::BinOp { dst: d, op: ">>"@, a: t, b: sh }
            &&& (op == 0 && f == 3) ==> ir == IrText::BinOp { dst: d, op: ">>a"@, a: t, b: sh }
            &&& (op == 0 && f == 8) ==> ir == IrText::Goto { label: s }
            &&& (op == 0 && f == 9) ==> ir == IrText::Call { target: s }
            &&& op == 0x0F ==> ir == IrText::Assign { dst: t, src: hex_0x((w & 0xFFFFu32) as nat) + " << 16"@ }
        }),
{
    crate::ps1_disasm::lemma_funct_nonzero(w);
}

/// A J lifts to a `goto` and a JAL to a call, both to the target that
/// keeps the top four bits of the delay slot's address `addr + 4` with the
/// 26-bit field times four below them; a BEQ/BNE (and their likely forms)
/// lift to a conditional goto to `addr + 4` plus four times the
/// sign-extended low 16 bits (when that stays within 32 bits).
pub proof fn lifted_transfer_targets(w: u32, addr: u32, known: Map<u32, String>)
    requires
        addr + 4 <= u32::MAX,
    ensures
        ({
            let op = (w >> 26u32) & 0x3Fu32;
            let t = f_jump(w, addr);
            let imm = (w & 0xFFFFu32) as int;
            let tt = addr + 4 + 4 * (if imm < 0x8000 { imm } else { imm - 0x10000 });
            &&& (op == 2 || op == 3) ==> t & 0xF000_0000u32 == ((addr + 4) as u32) & 0xF000_0000u32
                && t & 0x0FFF_FFFFu32 == (w & 0x03FF_FFFFu32) << 2u32
            &&& op == 2 ==> spec_lift(w, addr, known) == IrText::Goto { label: label_text(t) }
            &&& op == 3 ==> spec_lift(w, addr, known) == IrText::Call { target: call_name(t, known) }
            &&& ((op == 4 || op == 5 || op == 0x14 || op == 0x15) && 0 <= tt <= u32::MAX) ==> (
                spec_lift(w, addr, known) matches IrText::CondGoto { label, .. } && label == label_text(tt as u32))
        }),
{
    crate::cfg::lemma_region_jump(((addr + 4) as u32), w, f_jump(w, addr));
    crate::ps1_disasm::lemma_funct_nonzero(w);
}

// ---------------------------------------------------------------------------
// Lifter
// ---------------------------------------------------------------------------

fn cat2(a: &str, b: &str) -> (r: String)
    ensures
        r@ == a@ + b@,
{
    let mut s = owned(a);
    push_str(&mut s, b);
    s
}

fn cat3(a: &str, b: &str, c: &str) -> (r: String)
    ensures
        r@ == a@ + b@ + c@,
{
    let mut s = owned(a);
    push_str(&mut s, b);
    push_str(&mut s, c);
    s
}

fn bin(dst: u32, op: &'static str, a: String, b: String) -> (s: IrStmt)
    requires
        dst < 32,
    ensures
        ir_text(s) == binop(dst as int, op, a@, b@),
{
    IrStmt::BinOp { dst: reg(dst), op: owned(op), a, b }
}

fn dec_nat_string(v: u32) -> (r: String)
    ensures
        r@ == dec_nat(v as nat),
{
    let mut s = String::new();
    push_dec_u64(&mut s, v as u64);
    assert(s@ =~= dec_nat(v as nat));
    s
}

fn hex_min_string(v: u32) -> (r: String)
    ensures
        r@ == hex_0x(v as nat),
{
    let mut s = owned("0x");
    push_hex_min(&mut s, v);
    proof { reveal_strlit("0x"); }
    assert(s@ =~= hex_0x(v as nat));
    s
}

/// The label `loc_XXXXXXXX` for an address.
pub fn label_for(addr: u32) -> (r: String)
    ensures
        r@ == label_text(addr),
{
    let mut s = owned("loc_");
    push_hex_fixed(&mut s, addr, 8);
    s
}

fn lift_special(w: u32, addr: u32) -> (s: IrStmt)
    requires
        f_op(w) == 0,
    ensures
        ir_text(s) == spec_lift_special(w, addr),
{
    proof { lemma_fields(w); }
    let rs: u32 = (w >> 21) & 0x1F;
    let rt: u32 = (w >> 16) & 0x1F;
    let rd: u32 = (w >> 11) & 0x1F;
    let shamt: u32 = (w >> 6) & 0x1F;
    let funct: u32 = w & 0x3F;
    if funct == 0x00 { bin(rd, "<<", reg(rt), dec_nat_string(shamt)) }
    else if funct == 0x02 { bin(rd, ">>", reg(rt), dec_nat_string(shamt)) }
    else if funct == 0x03 { bin(rd, ">>a", reg(rt), dec_nat_string(shamt)) }
    else if funct == 0x04 { bin(rd, "<<", reg(rt), reg(rs)) }
    else if funct == 0x06 { bin(rd, ">>", reg(rt), reg(rs)) }
    else if funct == 0x07 { bin(rd, ">>a", reg(rt), reg(rs)) }
    else if funct == 0x08 { IrStmt::Goto { label: reg(rs) } }
    else if funct == 0x09 { IrStmt::Call { target: reg(rs) } }
    else if funct == 0x0C || funct == 0x0D {
        let mut c = if funct == 0x0C { owned("syscall(0x") } else { owned("break(0x") };
        push_hex_fixed(&mut c, w & 0xFFFFF, 5);
        push_str(&mut c, ")");
        IrStmt::Comment(c)
    }
    else if funct == 0x10 { IrStmt::Assign { dst: reg(rd), src: owned("hi") } }
    else if funct == 0x11 { IrStmt::Assign { dst: owned("hi"), src: reg(rs) } }
    else if funct == 0x12 { IrStmt::Assign { dst: reg(rd), src: owned("lo") } }
    else if funct == 0x13 { IrStmt::Assign { dst: owned("lo"), src: reg(rs) } }
    else if funct == 0x18 || funct == 0x19 {
        let mut c = if funct == 0x18 { owned("{lo,hi} = (i64)") } else { owned("{lo,hi} = (u64)") };
        let a = reg(rs);
        let b = reg(rt);
        push_str(&mut c, a.as_str());
        push_str(&mut c, if funct == 0x18 { " * (i64)" } else { " * (u64)" });
        push_str(&mut c, b.as_str());
        IrStmt::Comment(c)
    }
    else if funct == 0x1A || funct == 0x1B {
        let a = reg(rs);
        let b = reg(rt);
        let mut c = owned("lo = ");
        push_str(&mut c, a.as_str());
        push_str(&mut c, "/");
        push_str(&mut c, b.as_str());
        push_str(&mut c, if funct == 0x1A { " ; hi = " } else { " (u) ; hi = " });
        push_str(&mut c, a.as_str());
        push_str(&mut c, "%");
        push_str(&mut c, b.as_str());
        if funct == 0x1B {
            push_str(&mut c, " (u)");
        }
        IrStmt::Comment(c)
    }
    else if funct == 0x20 || funct == 0x21 { bin(rd, "+", reg(rs), reg(rt)) }
    else if funct == 0x22 || funct == 0x23 { bin(rd, "-", reg(rs), reg(rt)) }
    else if funct == 0x24 { bin(rd, "&", reg(rs), reg(rt)) }
    else if funct == 0x25 { bin(rd, "|", reg(rs), reg(rt)) }
    else if funct == 0x26 { bin(rd, "^", reg(rs), reg(rt)) }
    else if funct == 0x27 {
        let a = reg(rs);
        let b = reg(rt);
        let mut c = owned("(");
        push_str(&mut c, a.as_str());
        push_str(&mut c, " | ");
        push_str(&mut c, b.as_str());
        push_str(&mut c, ")");
        IrStmt::UnaryOp { dst: reg(rd), op: owned("~"), a: c }
    }
    else if funct == 0x2A { bin(rd, "<", reg(rs), reg(rt)) }
    else if funct == 0x2B {
        let a = reg(rs);
        let b = reg(rt);
        bin(rd, "<", cat2("(u)", a.as_str()), cat2("(u)", b.as_str()))
    }
    else { IrStmt::Raw { addr, word: w } }
}

fn cond_goto(cond: String, target: u32) -> (s: IrStmt)
    ensures
        ir_text(s) == (IrText::CondGoto { cond: cond@, label: label_text(target) }),
{
    IrStmt::CondGoto { cond, label: label_for(target) }
}

/// Lift a non-SPECIAL word (the REGIMM, jump, branch, immediate and
/// load/store opcodes).
pub fn lift_non_special(w: u32, addr: u32, known_funcs: &BTreeMap<u32, String>) -> (s: IrStmt)
    requires
        addr + 4 <= u32::MAX,
    ensures
        ir_text(s) == spec_lift_other(w, addr, known_funcs@),
{
    proof { lemma_fields(w); }
    let op: u32 = (w >> 26) & 0x3F;
    let rs: u32 = (w >> 21) & 0x1F;
    let rt: u32 = (w >> 16) & 0x1F;
    let imm16: u32 = w & 0xFFFF;
    let signed_imm: i32 = if imm16 < 0x8000 { imm16 as i32 } else { imm16 as i32 - 0x10000 };
    let branch_target: u32 = (addr as i64 + 4 + (signed_imm as i64) * 4) as u32;
    let jump_target: u32 = ((addr + 4) & 0xF000_0000) | ((w & 0x03FF_FFFF) << 2);
    if op == 0x01 {
        let a = reg(rs);
        let cond = if rt == 0x00 || rt == 0x02 || rt == 0x10 {
            cat2(a.as_str(), " < 0")
        } else if rt == 0x01 || rt == 0x03 || rt == 0x11 {
            cat2(a.as_str(), " >= 0")
        } else {
            let mut c = owned("REGIMM rt=");
            push_dec_u64(&mut c, rt as u64);
            c
        };
        cond_goto(cond, branch_target)
    }
    else if op == 0x02 { IrStmt::Goto { label: label_for(jump_target) } }
    else if op == 0x03 {
        let target = match known_funcs.get(&jump_target) {
            Some(n) => n.clone(),
            None => crate::text::hex8_string(jump_target),
        };
        IrStmt::Call { target }
    }
    else if op == 0x04 || op == 0x14 {
        let a = reg(rs);
        let b = reg(rt);
        cond_goto(cat3(a.as_str(), " == ", b.as_str()), branch_target)
    }
    else if op == 0x05 || op == 0x15 {
        let a = reg(rs);
        let b = reg(rt);
        cond_goto(cat3(a.as_str(), " != ", b.as_str()), branch_target)
    }
    else if op == 0x06 { let a = reg(rs); cond_goto(cat2(a.as_str(), " <= 0"), branch_target) }
    else if op == 0x07 { let a = reg(rs); cond_goto(cat2(a.as_str(), " > 0"), branch_target) }
    else if op == 0x08 || op == 0x09 { bin(rt, "+", reg(rs), dec_string(signed_imm as i64)) }
    else if op == 0x0A { bin(rt, "<", reg(rs), dec_string(signed_imm as i64)) }
    else if op == 0x0B {
        let a = reg(rs);
        let mut b = owned("(u)");
        push_dec_i64(&mut b, signed_imm as i64);
        bin(rt, "<", cat2("(u)", a.as_str()), b)
    }
    else if op == 0x0C { bin(rt, "&", reg(rs), hex_min_string(imm16)) }
    else if op == 0x0D { bin(rt, "|", reg(rs), hex_min_string(imm16)) }
    else if op == 0x0E { bin(rt, "^", reg(rs), hex_min_string(imm16)) }
    else if op == 0x0F {
        let mut src = hex_min_string(imm16);
        push_str(&mut src, " << 16");
        IrStmt::Assign { dst: reg(rt), src }
    }
    else if op == 0x20 || op == 0x24 { IrStmt::Load { dst: reg(rt), base: reg(rs), offset: signed_imm, size: 1 } }
    else if op == 0x21 || op == 0x25 { IrStmt::Load { dst: reg(rt), base: reg(rs), offset: signed_imm, size: 2 } }
    else if op == 0x23 { IrStmt::Load { dst: reg(rt), base: reg(rs), offset: signed_imm, size: 4 } }
    else if op == 0x28 { IrStmt::Store { base: reg(rs), offset: signed_imm, src: reg(rt), size: 1 } }
    else if op == 0x29 { IrStmt::Store { base: reg(rs), offset: signed_imm, src: reg(rt), size: 2 } }
    else if op == 0x2B { IrStmt::Store { base: reg(rs), offset: signed_imm, src: reg(rt), size: 4 } }
    else if op == 0x2F {
        let a = reg(rs);
        let mut c = owned("cache ");
        push_dec_i64(&mut c, signed_imm as i64);
        push_str(&mut c, "(");
        push_str(&mut c, a.as_str());
        push_str(&mut c, ")");
        IrStmt::Comment(c)
    }
    else { IrStmt::Raw { addr, word: w } }
}

/// Lift one MIPS word at `addr` into IR statements (always exactly one;
/// `nop` lifts to [`IrStmt::Nop`]). `known_funcs` names call targets.
pub fn lift_instruction(word: u32, addr: u32, known_funcs: &BTreeMap<u32, String>) -> (stmts: Vec<IrStmt>)
    requires
        addr + 4 <= u32::MAX,
    ensures
        stmts.len() == 1,
        ir_text(stmts[0]) == spec_lift(word, addr, known_funcs@),
{
    let s = if word == 0 {
        IrStmt::Nop
    } else if (word >> 26) & 0x3F == 0 {
        lift_special(word, addr)
    } else {
        lift_non_special(word, addr, known_funcs)
    };
    let mut v: Vec<IrStmt> = Vec::new();
    v.push(s);
    v
}

// ---------------------------------------------------------------------------
// Rendering
// ---------------------------------------------------------------------------

/// The C type name of a load/store width.
pub open spec fn size_ty(size: u8) -> Seq<char> {
    if size == 1 { "u8"@ } else if size == 2 { "u16"@ } else { "u32"@ }
}

/// One pseudocode line for a statement (empty for `Nop`).
pub open spec fn render_text(t: IrText) -> Seq<char> {
    match t {
        IrText::Assign { dst, src } => dst + " = "@ + src + ";"@,
        IrText::BinOp { dst, op, a, b } => dst + " = "@ + a + " "@ + op + " "@ + b + ";"@,
        IrText::UnaryOp { dst, op, a } => dst + " = "@ + op + a + ";"@,
        IrText::Load { dst, base, offset, size } =>
            dst + " = *("@ + size_ty(size) + "*)("@ + base + " + "@ + dec_int(offset as int) + ");"@,
        IrText::Store { base, offset, src, size } =>
            "*("@ + size_ty(size) + "*)("@ + base + " + "@ + dec_int(offset as int) + ") = "@ + src + ";"@,
        IrText::Call { target } => target + "();"@,
        IrText::Return { value } => match value {
            Some(v) => "return "@ + v + ";"@,
            None => "return;"@,
        },
        IrText::Goto { label } => "goto "@ + label + ";"@,
        IrText::CondGoto { cond, label } => "if ("@ + cond + ") goto "@ + label + ";"@,
        IrText::Label { label } => label + ":"@,
        IrText::Comment(c) => "// "@ + c,
        IrText::Raw { addr, word } => "// raw 0x"@ + hex_fixed(addr as nat, 8) + ": 0x"@ + hex_fixed(word as nat, 8),
        IrText::Nop => Seq::empty(),
    }
}

/// A lifted `add`/`sub` (and their unsigned forms) renders as
/// `rd = rs + rt;` / `rd = rs - rt;`, a load as `rt = *(T*)(rs + simm);`
/// and a store as `*(T*)(rs + simm) = rt;`.
pub proof fn rendered_arithmetic(w: u32, addr: u32, known: Map<u32, String>)
    ensures
        ({
            let op = (w >> 26u32) & 0x3Fu32;
            let f = w & 0x3Fu32;
            let d = reg_name(((w >> 11u32) & 0x1Fu32) as int);
            let s = reg_name(((w >> 21u32) & 0x1Fu32) as int);
            let t = reg_name(((w >> 16u32) & 0x1Fu32) as int);
            let imm = (w & 0xFFFFu32) as int;
            let simm = if imm < 0x8000 { imm } else { imm - 0x10000 };
            let txt = render_text(spec_lift(w, addr, known));
            &&& (op == 0 && (f == 0x20 || f == 0x21)) ==> txt == d + " = "@ + s + " "@ + "+"@ + " "@ + t + ";"@
            &&& (op == 0 && (f == 0x22 || f == 0x23)) ==> txt == d + " = "@ + s + " "@ + "-"@ + " "@ + t + ";"@
            &&& op == 0x23 ==> txt == t + " = *("@ + size_ty(4) + "*)("@ + s + " + "@ + dec_int(simm) + ");"@
            &&& op == 0x2B ==> txt == "*("@ + size_ty(4) + "*)("@ + s + " + "@ + dec_int(simm) + ") = "@ + t + ";"@
        }),
{
    if (w >> 26u32) & 0x3Fu32 == 0 {
        lifted_alu_operands(w, addr, known);
    }
    lifted_memory_and_immediates(w, addr, known);
    lemma_fields(w);
    let imm = (w & 0xFFFFu32) as int;
    let simm = if imm < 0x8000 { imm } else { imm - 0x10000 };
    assert(-0x8000 <= simm < 0x8000);
    assert((simm as i32) as int == simm);
}

fn size_name(size: u8) -> (r: &'static str)
    ensures
        r@ == size_ty(size),
{
    if size == 1 { "u8" } else if size == 2 { "u16" } else { "u32" }
}

/// Render one IR statement as a pseudocode line, without a newline.
pub fn render_stmt(s: &IrStmt) -> (r: String)
    ensures
        r@ == render_text(ir_text(*s)),
{
    let mut out = String::new();
    match s {
        IrStmt::Assign { dst, src } => {
            push_str(&mut out, dst.as_str());
            push_str(&mut out, " = ");
            push_str(&mut out, src.as_str());
            push_str(&mut out, ";");
        },
        IrStmt::BinOp { dst, op, a, b } => {
            push_str(&mut out, dst.as_str());
            push_str(&mut out, " = ");
            push_str(&mut out, a.as_str());
            push_str(&mut out, " ");
            push_str(&mut out, op.as_str());
            push_str(&mut out, " ");
            push_str(&mut out, b.as_str());
            push_str(&mut out, ";");
        },
        IrStmt::UnaryOp { dst, op, a } => {
            push_str(&mut out, dst.as_str());
            push_str(&mut out, " = ");
            push_str(&mut out, op.as_str());
            push_str(&mut out, a.as_str());
            push_str(&mut out, ";");
        },
        IrStmt::Load { dst, base, offset, size } => {
            push_str(&mut out, dst.as_str());
            push_str(&mut out, " = *(");
            push_str(&mut out, size_name(*size));
            push_str(&mut out, "*)(");
            push_str(&mut out, base.as_str());
            push_str(&mut out, " + ");
            push_dec_i64(&mut out, *offset as i64);
            push_str(&mut out, ");");
        },
        IrStmt::Store { base, offset, src, size } => {
            push_str(&mut out, "*(");
            push_str(&mut out, size_name(*size));
            push_str(&mut out, "*)(");
            push_str(&mut out, base.as_str());
            push_str(&mut out, " + ");
            push_dec_i64(&mut out, *offset as i64);
            push_str(&mut out, ") = ");
            push_str(&mut out, src.as_str());
            push_str(&mut out, ";");
        },
        IrStmt::Call { target } => {
            push_str(&mut out, target.as_str());
            push_str(&mut out, "();");
        },
        IrStmt::Return { value } => {
            match value {
                Some(v) => {
                    push_str(&mut out, "return ");
                    push_str(&mut out, v.as_str());
                    push_str(&mut out, ";");
                },
                None => {
                    push_str(&mut out, "return;");
                },
            }
        },
        IrStmt::Goto { label } => {
            push_str(&mut out, "goto ");
            push_str(&mut out, label.as_str());
            push_str(&mut out, ";");
        },
        IrStmt::CondGoto { cond, label } => {
            push_str(&mut out, "if (");
            push_str(&mut out, cond.as_str());
            push_str(&mut out, ") goto ");
            push_str(&mut out, label.as_str());
            push_str(&mut out, ";");
        },
        IrStmt::Label { label } => {
            push_str(&mut out, label.as_str());
            push_str(&mut out, ":");
        },
        IrStmt::Comment(c) => {
            push_str(&mut out, "// ");
            push_str(&mut out, c.as_str());
        },
        IrStmt::Raw { addr, word } => {
            push_str(&mut out, "// raw 0x");
            push_hex_fixed(&mut out, *addr, 8);
            push_str(&mut out, ": 0x");
            push_hex_fixed(&mut out, *word, 8);
        },
        IrStmt::Nop => {},
    }
    assert(out@ =~= render_text(ir_text(*s)));
    out
}

// ---------------------------------------------------------------------------
// Function decompiler
// ---------------------------------------------------------------------------

/// Result of decompiling one function.
#[derive(Debug, Clone)]
pub struct Decompilation {
    /// The function entry address.
    pub entry: u32,
    /// The C-like pseudocode.
    pub pseudocode: String,
    /// Number of IR statements emitted (one per instruction).
    pub stmt_count: usize,
    /// Number of basic blocks processed.
    pub block_count: usize,
}

/// Edges whose target gets a label: taken and not-taken branches and jumps.
pub open spec fn labels_edge(e: CfgEdge) -> bool {
    e.kind == EdgeKind::BranchTaken || e.kind == EdgeKind::BranchNotTaken || e.kind == EdgeKind::Jump
}

/// The targets of the labelling edges among `es`.
pub open spec fn label_set(es: Seq<CfgEdge>) -> Set<u32>
    decreases es.len(),
{
    if es.len() == 0 {
        Set::empty()
    } else if labels_edge(es.last()) {
        label_set(es.drop_last()).insert(es.last().to)
    } else {
        label_set(es.drop_last())
    }
}

/// `ks` lists the keys of `d` in strictly increasing order.
pub open spec fn sorted_dom(ks: Seq<u32>, d: Set<u32>) -> bool {
    &&& forall|i: int, j: int| 0 <= i < j < ks.len() ==> ks[i] < ks[j]
    &&& forall|i: int| 0 <= i < ks.len() ==> d.contains(#[trigger] ks[i])
    &&& forall|k: u32| #[trigger] d.contains(k) ==> ks.contains(k)
}

/// The pseudocode lines of one instruction: `return;` for `jr $ra`, else the
/// rendered lifted statement (nothing when it renders empty).
pub open spec fn instr_text(addr: u32, word: u32, known: Map<u32, String>) -> Seq<char> {
    if spec_decode_flow(word, addr) == (Flow::Jr { rs: 31 }) {
        "  return;\n"@
    } else {
        let line = render_text(spec_lift(word, addr, known));
        if line.len() == 0 { Seq::empty() } else { "  "@ + line + "\n"@ }
    }
}

/// The lines of a run of instructions.
pub open spec fn instrs_text(is: Seq<(u32, u32)>, known: Map<u32, String>) -> Seq<char>
    decreases is.len(),
{
    if is.len() == 0 {
        Seq::empty()
    } else {
        instrs_text(is.drop_last(), known) + instr_text(is.last().0, is.last().1, known)
    }
}

/// The text of one block: its label line (unless it is the first block, or
/// no labelling edge targets it), then its instructions.
pub open spec fn block_text(b: BasicBlock, key: u32, first: bool, labels: Set<u32>, known: Map<u32, String>) -> Seq<char> {
    (if !first && labels.contains(key) { "  "@ + label_text(key) + ":\n"@ } else { Seq::empty() })
        + instrs_text(b.instrs@, known)
}

/// The text of the blocks `ks`, in that order.
pub open spec fn blocks_text(ks: Seq<u32>, blocks: Map<u32, BasicBlock>, labels: Set<u32>, known: Map<u32, String>) -> Seq<char>
    decreases ks.len(),
{
    if ks.len() == 0 {
        Seq::empty()
    } else {
        blocks_text(ks.drop_last(), blocks, labels, known)
            + block_text(blocks[ks.last()], ks.last(), ks.len() == 1, labels, known)
    }
}

/// Number of instructions in the blocks `ks`.
pub open spec fn instr_count(ks: Seq<u32>, blocks: Map<u32, BasicBlock>) -> nat
    decreases ks.len(),
{
    if ks.len() == 0 { 0 } else { instr_count(ks.drop_last(), blocks) + blocks[ks.last()].instrs@.len() }
}

/// The function's name: its known name, else `sub_XXXXXXXX`.
pub open spec fn func_name(entry: u32, known: Map<u32, String>) -> Seq<char> {
    if known.contains_key(entry) { known[entry]@ } else { "sub_"@ + hex_fixed(entry as nat, 8) }
}

/// The two header lines of a decompiled function.
pub open spec fn header_text(entry: u32, nblocks: nat, known: Map<u32, String>) -> Seq<char> {
    "// Decompiled from 0x"@ + hex_fixed(entry as nat, 8) + " ("@ + dec_nat(nblocks) + " blocks)\n"@
        + "void "@ + func_name(entry, known) + "() {\n"@
}

/// Every instruction address of the CFG leaves room for the next one.
pub open spec fn cfg_addrs_fit(blocks: Map<u32, BasicBlock>) -> bool {
    forall|k: u32, j: int| blocks.contains_key(k) && 0 <= j < blocks[k].instrs@.len()
        ==> #[trigger] blocks[k].instrs@[j].0 + 4 <= u32::MAX
}

proof fn lemma_count_prefix(ks: Seq<u32>, blocks: Map<u32, BasicBlock>, i: int)
    requires
        0 <= i <= ks.len(),
    ensures
        instr_count(ks.take(i), blocks) <= instr_count(ks, blocks),
    decreases ks.len(),
{
    if i < ks.len() {
        lemma_count_prefix(ks.drop_last(), blocks, i);
        assert(ks.drop_last().take(i) =~= ks.take(i));
    } else {
        assert(ks.take(i) =~= ks);
    }
}

fn emit_block(
    out: &mut String,
    block: &BasicBlock,
    key: u32,
    first: bool,
    labels: &BTreeSet<u32>,
    known_funcs: &BTreeMap<u32, String>,
)
    requires
        forall|j: int| 0 <= j < block.instrs@.len() ==> #[trigger] block.instrs@[j].0 + 4 <= u32::MAX,
    ensures
        final(out)@ == old(out)@ + block_text(*block, key, first, labels@, known_funcs@),
{
    let ghost out_b = out@;
    if !first && labels.contains(&key) {
        push_str(out, "  ");
        let l = label_for(key);
        push_str(out, l.as_str());
        push_str(out, ":\n");
    }
    let ghost out_l = out@;
    assert(out_l =~= out_b + (if !first && labels@.contains(key) { "  "@ + label_text(key) + ":\n"@ } else { Seq::<char>::empty() }));
    let mut j: usize = 0;
    while j < block.instrs.len()
        invariant
            forall|j2: int| 0 <= j2 < block.instrs@.len() ==> #[trigger] block.instrs@[j2].0 + 4 <= u32::MAX,
            j <= block.instrs.len(),
            out@ == out_l + instrs_text(block.instrs@.take(j as int), known_funcs@),
        decreases block.instrs.len() - j,
    {
        let (instr_addr, word) = block.instrs[j];
        assert(block.instrs@[j as int].0 + 4 <= u32::MAX);
        assert(block.instrs@.take(j + 1).drop_last() =~= block.instrs@.take(j as int));
        let ghost before = out@;
        let flow = decode_flow(word, instr_addr);
        let is_ret = match flow {
            Flow::Jr { rs } => rs == 31,
            _ => false,
        };
        if is_ret {
            push_str(out, "  return;\n");
        } else {
            let stmts = lift_instruction(word, instr_addr, known_funcs);
            let line = render_stmt(&stmts[0]);
            if !line.as_str().is_empty() {
                push_str(out, "  ");
                push_str(out, line.as_str());
                push_str(out, "\n");
            }
        }
        assert(out@ =~= before + instr_text(instr_addr, word, known_funcs@));
        j = j + 1;
    }
    assert(block.instrs@.take(j as int) =~= block.instrs@);
}

/// Decompile one function from its CFG. Blocks are emitted in address order;
/// a block that a branch or jump targets (other than the first) gets a
/// `loc_XXXXXXXX:` label; `jr $ra` becomes `return;`; every other
/// instruction is lifted and rendered, `nop`s producing no line.
/// `data`, `base_addr` and `is_le` name the section the CFG was built from;
/// the instruction words are already held by the CFG.
pub fn decompile_function(
    cfg: &FunctionCfg,
    data: &[u8],
    base_addr: u32,
    is_le: bool,
    known_funcs: &BTreeMap<u32, String>,
) -> (d: Decompilation)
    requires
        cfg_addrs_fit(cfg.blocks@),
        forall|ks: Seq<u32>| sorted_dom(ks, cfg.blocks@.dom()) ==> instr_count(ks, cfg.blocks@) <= usize::MAX,
    ensures
        d.entry == cfg.entry,
        d.block_count == cfg.blocks@.dom().len(),
        exists|ks: Seq<u32>| {
            &&& sorted_dom(ks, cfg.blocks@.dom())
            &&& d.pseudocode@ == header_text(cfg.entry, cfg.blocks@.dom().len(), known_funcs@)
                + blocks_text(ks, cfg.blocks@, label_set(cfg.edges@), known_funcs@) + "}\n"@
            &&& d.stmt_count == instr_count(ks, cfg.blocks@)
        },
{
    let ghost m = cfg.blocks@;
    let ghost known = known_funcs@;
    let mut labels: BTreeSet<u32> = BTreeSet::new();
    let mut e: usize = 0;
    while e < cfg.edges.len()
        invariant
            e <= cfg.edges.len(),
            labels@ == label_set(cfg.edges@.take(e as int)),
        decreases cfg.edges.len() - e,
    {
        let edge = cfg.edges[e];
        assert(cfg.edges@.take(e + 1).drop_last() =~= cfg.edges@.take(e as int));
        match edge.kind {
            EdgeKind::BranchTaken | EdgeKind::BranchNotTaken | EdgeKind::Jump => {
                labels.insert(edge.to);
            },
            _ => {},
        }
        e = e + 1;
    }
    assert(cfg.edges@.take(e as int) =~= cfg.edges@);
    let ghost lbl = labels@;

    let nblocks = cfg.blocks.len();
    let mut out = String::new();
    push_str(&mut out, "// Decompiled from 0x");
    push_hex_fixed(&mut out, cfg.entry, 8);
    push_str(&mut out, " (");
    push_dec_u64(&mut out, nblocks as u64);
    push_str(&mut out, " blocks)\n");
    push_str(&mut out, "void ");
    match known_funcs.get(&cfg.entry) {
        Some(n) => push_str(&mut out, n.as_str()),
        None => {
            push_str(&mut out, "sub_");
            push_hex_fixed(&mut out, cfg.entry, 8);
        },
    }
    push_str(&mut out, "() {\n");
    let ghost head = out@;
    assert(head =~= header_text(cfg.entry, m.dom().len(), known));

    let ghost keys = cfg.blocks.iter().remaining().map_values(|kv: (&u32, &BasicBlock)| *kv.0);
    proof {
        let v = cfg.blocks.iter().remaining();
        assert forall|k: u32| #[trigger] m.dom().contains(k) implies keys.contains(k) by {
            let q2 = choose|q2: int| 0 <= q2 < v.len() && v[q2] == (&k, &m[k]);
            assert(keys[q2] == k);
        }
        assert forall|i: int| 0 <= i < keys.len() implies m.dom().contains(#[trigger] keys[i]) by {
            assert(m.contains_key(*v[i].0));
        }
    }
    let mut stmt_count: usize = 0;
    let mut bi: usize = 0;
    for entry in it: cfg.blocks.iter()
        invariant
            m == cfg.blocks@,
            known == known_funcs@,
            lbl == labels@,
            cfg_addrs_fit(m),
            forall|ks: Seq<u32>| sorted_dom(ks, m.dom()) ==> instr_count(ks, m) <= usize::MAX,
            keys == it.seq().map_values(|kv: (&u32, &BasicBlock)| *kv.0),
            increasing_seq(keys),
            forall|i: int| 0 <= i < keys.len() ==> m.dom().contains(#[trigger] keys[i]),
            forall|k: u32| #[trigger] m.dom().contains(k) ==> keys.contains(k),
            it.seq().len() == m.dom().len(),
            it.seq().len() == nblocks,
            forall|q: int| 0 <= q < it.seq().len() ==> #[trigger] m.contains_key(*it.seq()[q].0) && m[*it.seq()[q].0] == *it.seq()[q].1,
            forall|k: u32| #[trigger] m.contains_key(k) ==> it.seq().contains((&k, &m[k])),
            bi == it.index(),
            out@ == head + blocks_text(keys.take(it.index()), m, lbl, known),
            stmt_count == instr_count(keys.take(it.index()), m),
            it.index() == keys.len() ==> out@ == head + blocks_text(keys, m, lbl, known)
                && stmt_count == instr_count(keys, m) && sorted_dom(keys, m.dom()),
    {
        let (key, block) = entry;
        proof {
            crate::order::lemma_increasing_u32(keys);
            assert(sorted_dom(keys, m.dom()));
        }
        let ghost q = it.index();
        assert(it.seq()[q] == entry);
        assert(keys[q] == *key);
        proof {
            lemma_count_prefix(keys, m, q + 1);
            assert(keys.take(keys.len() as int) =~= keys);
            assert(keys.take(q + 1).drop_last() =~= keys.take(q));
        }
        emit_block(&mut out, block, *key, bi == 0, &labels, known_funcs);
        assert(out@ =~= head + blocks_text(keys.take(q + 1), m, lbl, known));
        stmt_count = stmt_count + block.instrs.len();
        bi = bi + 1;
        assert(keys.take(keys.len() as int) =~= keys);
    }
    push_str(&mut out, "}\n");
    let _ = (data, base_addr, is_le);
    Decompilation { entry: cfg.entry, pseudocode: out, stmt_count, block_count: nblocks }
}

/// Every listing of the blocks in address order is the same sequence.
pub(crate) proof fn lemma_sorted_dom_unique(a: Seq<u32>, b: Seq<u32>, d: Set<u32>)
    requires
        sorted_dom(a, d),
        sorted_dom(b, d),
    ensures
        a == b,
{
    assert(crate::order::lists_set(a, d));
    assert(crate::order::lists_set(b, d));
    crate::order::lemma_lists_set_unique(a, b, d);
}

/// The number of instructions in the CFG's blocks, when it fits a `usize`.
pub fn cfg_instr_total(cfg: &FunctionCfg) -> (r: Option<usize>)
    ensures
        r matches Some(n) ==> forall|ks: Seq<u32>| sorted_dom(ks, cfg.blocks@.dom()) ==> instr_count(ks, cfg.blocks@) == n,
        r is None ==> forall|ks: Seq<u32>| sorted_dom(ks, cfg.blocks@.dom()) ==> instr_count(ks, cfg.blocks@) > usize::MAX,
{
    let ghost m = cfg.blocks@;
    let ghost keys = cfg.blocks.iter().remaining().map_values(|kv: (&u32, &BasicBlock)| *kv.0);
    proof {
        let v = cfg.blocks.iter().remaining();
        assert forall|k: u32| #[trigger] m.dom().contains(k) implies keys.contains(k) by {
            let q2 = choose|q2: int| 0 <= q2 < v.len() && v[q2] == (&k, &m[k]);
            assert(keys[q2] == k);
        }
        assert forall|i: int| 0 <= i < keys.len() implies m.dom().contains(#[trigger] keys[i]) by {
            assert(m.contains_key(*v[i].0));
        }
    }
    let mut total: usize = 0;
    for entry in it: cfg.blocks.iter()
        invariant
            m == cfg.blocks@,
            keys == it.seq().map_values(|kv: (&u32, &BasicBlock)| *kv.0),
            increasing_seq(keys),
            forall|i: int| 0 <= i < keys.len() ==> m.dom().contains(#[trigger] keys[i]),
            forall|k: u32| #[trigger] m.dom().contains(k) ==> keys.contains(k),
            forall|q: int| 0 <= q < it.seq().len() ==> #[trigger] m.contains_key(*it.seq()[q].0) && m[*it.seq()[q].0] == *it.seq()[q].1,
            total == instr_count(keys.take(it.index()), m),
    {
        let (key, block) = entry;
        proof {
            crate::order::lemma_increasing_u32(keys);
        }
        let ghost q = it.index();
        assert(it.seq()[q] == entry);
        assert(keys[q] == *key);
        assert(keys.take(q + 1).drop_last() =~= keys.take(q));
        if block.instrs.len() > usize::MAX - total {
            proof {
                lemma_count_prefix(keys, m, q + 1);
                assert forall|ks: Seq<u32>| sorted_dom(ks, m.dom()) implies instr_count(ks, m) > usize::MAX by {
                    lemma_sorted_dom_unique(ks, keys, m.dom());
                }
            }
            return None;
        }
        total = total + block.instrs.len();
    }
    proof {
        crate::order::lemma_increasing_u32(keys);
        assert(keys.take(keys.len() as int) =~= keys);
        assert forall|ks: Seq<u32>| sorted_dom(ks, m.dom()) implies instr_count(ks, m) == total by {
            lemma_sorted_dom_unique(ks, keys, m.dom());
        }
    }
    Some(total)
}

} // verus!
