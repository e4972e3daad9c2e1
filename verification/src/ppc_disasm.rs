//! PowerPC disassembler shared by the GameCube/Wii (Gekko/Broadway) and
//! Xbox 360 (Xenon) back ends: a two-level decoder on the primary and
//! extended opcodes with the usual assembler aliases.

use vstd::prelude::*;
use crate::cfg::word_at;
use crate::text::{dec_int, dec_nat, hex_fixed, hex_min, owned, push_dec_i64, push_dec_u64, push_hex_fixed, push_hex_min, push_hex_min64, push_str};

verus! {

// ---------------------------------------------------------------------------
// Fields
// ---------------------------------------------------------------------------

pub open spec fn p_op(w: u32) -> u32 { w >> 26u32 }
pub open spec fn p_rt(w: u32) -> u32 { (w >> 21u32) & 0x1Fu32 }
pub open spec fn p_ra(w: u32) -> u32 { (w >> 16u32) & 0x1Fu32 }
pub open spec fn p_rb(w: u32) -> u32 { (w >> 11u32) & 0x1Fu32 }
pub open spec fn p_rc(w: u32) -> u32 { (w >> 6u32) & 0x1Fu32 }
pub open spec fn p_xo10(w: u32) -> u32 { (w >> 1u32) & 0x3FFu32 }
pub open spec fn p_xo5(w: u32) -> u32 { (w >> 1u32) & 0x1Fu32 }
pub open spec fn p_crf(w: u32) -> u32 { (w >> 23u32) & 0x7u32 }
pub open spec fn p_crfs(w: u32) -> u32 { (w >> 18u32) & 0x7u32 }
pub open spec fn p_crm(w: u32) -> u32 { (w >> 12u32) & 0xFFu32 }
pub open spec fn p_uimm(w: u32) -> u32 { w & 0xFFFFu32 }
/// The special-purpose register number: the two 5-bit halves swapped.
pub open spec fn p_spr(w: u32) -> u32 { (p_rb(w) * 32 + p_ra(w)) as u32 }
/// The sign-extended 16-bit immediate.
pub open spec fn p_simm(w: u32) -> int { if p_uimm(w) < 0x8000 { p_uimm(w) as int } else { p_uimm(w) - 0x10000 } }
/// The sign-extended 26-bit branch displacement.
pub open spec fn p_li(w: u32) -> int {
    let v = w & 0x03FF_FFFCu32;
    if v < 0x0200_0000 { v as int } else { v - 0x0400_0000 }
}
/// The sign-extended 16-bit conditional-branch displacement.
pub open spec fn p_bd(w: u32) -> int {
    let v = w & 0xFFFCu32;
    if v < 0x8000 { v as int } else { v - 0x10000 }
}
/// The sign-extended DS-form displacement, in bytes.
pub open spec fn p_ds(w: u32) -> int {
    let v = (w >> 2u32) & 0x3FFFu32;
    (if v < 0x2000 { v as int } else { v - 0x4000 }) * 4
}
pub open spec fn p_aa(w: u32) -> bool { w & 2u32 != 0 }
pub open spec fn p_lk(w: u32) -> bool { w & 1u32 != 0 }
pub open spec fn p_oe(w: u32) -> bool { (w >> 10u32) & 1u32 != 0 }

/// `o` when the overflow-enable bit is set.
pub open spec fn osuf(w: u32) -> Seq<char> { if p_oe(w) { "o"@ } else { Seq::empty() } }
/// `.` when the record bit is set.
pub open spec fn dot(w: u32) -> Seq<char> { if w & 1u32 != 0 { "."@ } else { Seq::empty() } }
/// `l` when the link bit is set.
pub open spec fn lsuf(w: u32) -> Seq<char> { if p_lk(w) { "l"@ } else { Seq::empty() } }

pub open spec fn gpr(x: u32) -> Seq<char> { "r"@ + dec_nat(x as nat) }
pub open spec fn fpr(x: u32) -> Seq<char> { "f"@ + dec_nat(x as nat) }

pub open spec fn j2(a: Seq<char>, b: Seq<char>) -> Seq<char> { a + ", "@ + b }
pub open spec fn j3(a: Seq<char>, b: Seq<char>, c: Seq<char>) -> Seq<char> { a + ", "@ + b + ", "@ + c }
pub open spec fn j4(a: Seq<char>, b: Seq<char>, c: Seq<char>, d: Seq<char>) -> Seq<char> { a + ", "@ + b + ", "@ + c + ", "@ + d }

/// The branch target: the displacement itself when the AA bit is set, else
/// `pc` plus the displacement (both modulo 2^64).
pub open spec fn ppc_target(w: u32, disp: int, pc: u64) -> u64 {
    if p_aa(w) { disp as u64 } else { pc.wrapping_add(disp as u64) }
}

/// `pc` read as a signed 64-bit value.
pub open spec fn signed_pc(pc: u64) -> int {
    if pc < 0x8000_0000_0000_0000 { pc as int } else { pc - 0x1_0000_0000_0000_0000 }
}

/// A relative branch at `pc` does not overflow the signed 64-bit sum.
pub open spec fn ppc_branch_fits(w: u32, pc: u64) -> bool {
    let disp = if p_op(w) == 16 { p_bd(w) } else { p_li(w) };
    (p_op(w) == 16 || p_op(w) == 18) && !p_aa(w) ==> i64::MIN <= signed_pc(pc) + disp <= i64::MAX
}

/// `disp(rA)` operand text of a D/DS-form load or store.
pub open spec fn d_form(w: u32, disp: int) -> Seq<char> {
    if p_ra(w) == 0 {
        dec_int(disp) + "(0)"@
    } else if disp >= 0 {
        "0x"@ + hex_min(disp as nat) + "("@ + gpr(p_ra(w)) + ")"@
    } else {
        "-0x"@ + hex_min((-disp) as nat) + "("@ + gpr(p_ra(w)) + ")"@
    }
}

/// The name of a special-purpose register.
pub open spec fn spr_text(spr: u32) -> Seq<char> {
    if spr == 1 { "xer"@ } else if spr == 8 { "lr"@ } else if spr == 9 { "ctr"@ } else if spr == 18 { "dsisr"@ }
    else if spr == 19 { "dar"@ } else if spr == 22 { "dec"@ } else if spr == 26 { "srr0"@ } else if spr == 27 { "srr1"@ }
    else if 272 <= spr <= 275 { "sprg"@ + dec_nat((spr - 272) as nat) }
    else if spr == 287 { "pvr"@ }
    else { "spr"@ + dec_nat(spr as nat) }
}

/// Simplified branch mnemonics on `cr0` for (BO, BI).
pub open spec fn cond_alias(bo: u32, bi: u32) -> Option<Seq<char>> {
    if bo == 12 && bi == 0 { Some("blt"@) } else if bo == 4 && bi == 1 { Some("ble"@) }
    else if bo == 12 && bi == 2 { Some("beq"@) } else if bo == 4 && bi == 0 { Some("bge"@) }
    else if bo == 12 && bi == 1 { Some("bgt"@) } else if bo == 4 && bi == 2 { Some("bne"@) }
    else if bo == 12 && bi == 3 { Some("bso"@) } else if bo == 4 && bi == 3 { Some("bns"@) }
    else { None }
}

// ---------------------------------------------------------------------------
// Decoder specification
// ---------------------------------------------------------------------------

/// Branches: `bc` (16), `sc` (17), `b` (18).
pub open spec fn ppc_branch(w: u32, pc: u64) -> (Seq<char>, Seq<char>) {
    let op = p_op(w);
    let bo = p_rt(w);
    let bi = p_ra(w);
    if op == 17 {
        ("sc"@, Seq::empty())
    } else if op == 18 {
        let t = "0x"@ + hex_min(ppc_target(w, p_li(w), pc) as nat);
        if p_lk(w) { ("bl"@, t) } else { ("b"@, t) }
    } else {
        let t = "0x"@ + hex_min(ppc_target(w, p_bd(w), pc) as nat);
        if bo == 20 { ("b"@ + lsuf(w), t) }
        else if bo == 16 { ("bdnz"@ + lsuf(w), t) }
        else if bo == 18 { ("bdz"@ + lsuf(w), t) }
        else if cond_alias(bo, bi) is Some { (cond_alias(bo, bi).unwrap() + lsuf(w), t) }
        else { ("bc"@ + lsuf(w), j3(dec_nat(bo as nat), dec_nat(bi as nat), t)) }
    }
}

/// The XL group (op 19): condition-register ops and `bclr`/`bcctr`.
pub open spec fn ppc_19(w: u32) -> (Seq<char>, Seq<char>) {
    let x = p_xo10(w);
    let bo = p_rt(w);
    let bi = p_ra(w);
    if x == 0 { ("mcrf"@, j2("cr"@ + dec_nat(p_crf(w) as nat), "cr"@ + dec_nat(p_crfs(w) as nat))) }
    else if x == 16 {
        if bo == 20 && bi == 0 && !p_lk(w) { ("blr"@, Seq::empty()) }
        else if bo == 20 && bi == 0 && p_lk(w) { ("blrl"@, Seq::empty()) }
        else if cond_alias(bo, bi) is Some { (cond_alias(bo, bi).unwrap() + "lr"@ + lsuf(w), Seq::empty()) }
        else { ("bclr"@ + lsuf(w), j2(dec_nat(bo as nat), dec_nat(bi as nat))) }
    }
    else if x == 528 {
        if bo == 20 { ("bctr"@ + lsuf(w), Seq::empty()) } else { ("bcctr"@ + lsuf(w), Seq::empty()) }
    }
    else {
        if x == 18 { ("rfid"@, Seq::empty()) }
        else if x == 33 { ("crnor"@, j3(dec_nat(p_rt(w) as nat), dec_nat(p_ra(w) as nat), dec_nat(p_rb(w) as nat))) }
        else if x == 50 { ("rfi"@, Seq::empty()) }
        else if x == 129 { ("crandc"@, j3(dec_nat(p_rt(w) as nat), dec_nat(p_ra(w) as nat), dec_nat(p_rb(w) as nat))) }
        else if x == 150 { ("isync"@, Seq::empty()) }
        else if x == 193 { ("crxor"@, j3(dec_nat(p_rt(w) as nat), dec_nat(p_ra(w) as nat), dec_nat(p_rb(w) as nat))) }
        else if x == 225 { ("crnand"@, j3(dec_nat(p_rt(w) as nat), dec_nat(p_ra(w) as nat), dec_nat(p_rb(w) as nat))) }
        else if x == 257 { ("crand"@, j3(dec_nat(p_rt(w) as nat), dec_nat(p_ra(w) as nat), dec_nat(p_rb(w) as nat))) }
        else if x == 289 { ("creqv"@, j3(dec_nat(p_rt(w) as nat), dec_nat(p_ra(w) as nat), dec_nat(p_rb(w) as nat))) }
        else if x == 417 { ("crorc"@, j3(dec_nat(p_rt(w) as nat), dec_nat(p_ra(w) as nat), dec_nat(p_rb(w) as nat))) }
        else if x == 449 { ("cror"@, j3(dec_nat(p_rt(w) as nat), dec_nat(p_ra(w) as nat), dec_nat(p_rb(w) as nat))) }
        else { (".word"@, "0x"@ + hex_fixed(w as nat, 8)) }
    }
}

/// The X/XO group (op 31): register arithmetic, logic, indexed loads/stores, SPR moves.
pub open spec fn ppc_31(w: u32) -> (Seq<char>, Seq<char>) {
    let x = p_xo10(w);
    if x == 0 { ("cmp"@, j3("cr"@ + dec_nat(p_crf(w) as nat), gpr(p_ra(w)), gpr(p_rb(w)))) }
    else if x == 32 { ("cmpl"@, j3("cr"@ + dec_nat(p_crf(w) as nat), gpr(p_ra(w)), gpr(p_rb(w)))) }
    else if x == 124 {
        if p_rt(w) == p_rb(w) { ("not"@ + dot(w), j2(gpr(p_ra(w)), gpr(p_rt(w)))) }
        else { ("nor"@ + dot(w), j3(gpr(p_ra(w)), gpr(p_rt(w)), gpr(p_rb(w)))) }
    }
    else if x == 339 {
        let spr = p_spr(w);
        if spr == 1 { ("mfxer"@, gpr(p_rt(w))) } else if spr == 8 { ("mflr"@, gpr(p_rt(w))) }
        else if spr == 9 { ("mfctr"@, gpr(p_rt(w))) } else { ("mfspr"@, j2(gpr(p_rt(w)), spr_text(spr))) }
    }
    else if x == 444 {
        if p_rt(w) == p_rb(w) { ("mr"@ + dot(w), j2(gpr(p_ra(w)), gpr(p_rt(w)))) }
        else { ("or"@ + dot(w), j3(gpr(p_ra(w)), gpr(p_rt(w)), gpr(p_rb(w)))) }
    }
    else if x == 467 {
        let spr = p_spr(w);
        if spr == 1 { ("mtxer"@, gpr(p_rt(w))) } else if spr == 8 { ("mtlr"@, gpr(p_rt(w))) }
        else if spr == 9 { ("mtctr"@, gpr(p_rt(w))) } else { ("mtspr"@, j2(spr_text(spr), gpr(p_rt(w)))) }
    }
    else {
        if x == 4 { ("tw"@, j3(dec_nat(p_rt(w) as nat), gpr(p_ra(w)), gpr(p_rb(w)))) }
        else if x == 8 { ("subfc"@ + osuf(w) + dot(w), j3(gpr(p_rt(w)), gpr(p_ra(w)), gpr(p_rb(w)))) }
        else if x == 10 { ("addc"@ + osuf(w) + dot(w), j3(gpr(p_rt(w)), gpr(p_ra(w)), gpr(p_rb(w)))) }
        else if x == 19 { ("mfcr"@, gpr(p_rt(w))) }
        else if x == 23 { ("lwzx"@, j3(gpr(p_rt(w)), gpr(p_ra(w)), gpr(p_rb(w)))) }
        else if x == 24 { ("slw"@ + dot(w), j3(gpr(p_ra(w)), gpr(p_rt(w)), gpr(p_rb(w)))) }
        else if x == 26 { ("cntlzw"@ + dot(w), j2(gpr(p_ra(w)), gpr(p_rt(w)))) }
        else if x == 28 { ("and"@ + dot(w), j3(gpr(p_ra(w)), gpr(p_rt(w)), gpr(p_rb(w)))) }
        else if x == 40 { ("subf"@ + osuf(w) + dot(w), j3(gpr(p_rt(w)), gpr(p_ra(w)), gpr(p_rb(w)))) }
        else if x == 60 { ("andc"@ + dot(w), j3(gpr(p_ra(w)), gpr(p_rt(w)), gpr(p_rb(w)))) }
        else if x == 87 { ("lbzx"@, j3(gpr(p_rt(w)), gpr(p_ra(w)), gpr(p_rb(w)))) }
        else if x == 104 { ("neg"@ + osuf(w) + dot(w), j2(gpr(p_rt(w)), gpr(p_ra(w)))) }
        else if x == 136 { ("subfe"@ + osuf(w) + dot(w), j3(gpr(p_rt(w)), gpr(p_ra(w)), gpr(p_rb(w)))) }
        else if x == 138 { ("adde"@ + osuf(w) + dot(w), j3(gpr(p_rt(w)), gpr(p_ra(w)), gpr(p_rb(w)))) }
        else if x == 144 { ("mtcrf"@, j2("0x"@ + hex_fixed(p_crm(w) as nat, 2), gpr(p_rt(w)))) }
        else if x == 151 { ("stwx"@, j3(gpr(p_rt(w)), gpr(p_ra(w)), gpr(p_rb(w)))) }
        else if x == 200 { ("subfze"@ + osuf(w) + dot(w), j2(gpr(p_rt(w)), gpr(p_ra(w)))) }
        else if x == 202 { ("addze"@ + osuf(w) + dot(w), j2(gpr(p_rt(w)), gpr(p_ra(w)))) }
        else if x == 215 { ("stbx"@, j3(gpr(p_rt(w)), gpr(p_ra(w)), gpr(p_rb(w)))) }
        else if x == 232 { ("subfme"@ + osuf(w) + dot(w), j2(gpr(p_rt(w)), gpr(p_ra(w)))) }
        else if x == 234 { ("addme"@ + osuf(w) + dot(w), j2(gpr(p_rt(w)), gpr(p_ra(w)))) }
        else if x == 235 { ("mullw"@ + osuf(w) + dot(w), j3(gpr(p_rt(w)), gpr(p_ra(w)), gpr(p_rb(w)))) }
        else if x == 266 { ("add"@ + osuf(w) + dot(w), j3(gpr(p_rt(w)), gpr(p_ra(w)), gpr(p_rb(w)))) }
        else if x == 279 { ("lhzx"@, j3(gpr(p_rt(w)), gpr(p_ra(w)), gpr(p_rb(w)))) }
        else if x == 284 { ("eqv"@ + dot(w), j3(gpr(p_ra(w)), gpr(p_rt(w)), gpr(p_rb(w)))) }
        else if x == 316 { ("xor"@ + dot(w), j3(gpr(p_ra(w)), gpr(p_rt(w)), gpr(p_rb(w)))) }
        else if x == 343 { ("lhax"@, j3(gpr(p_rt(w)), gpr(p_ra(w)), gpr(p_rb(w)))) }
        else if x == 407 { ("sthx"@, j3(gpr(p_rt(w)), gpr(p_ra(w)), gpr(p_rb(w)))) }
        else if x == 412 { ("orc"@ + dot(w), j3(gpr(p_ra(w)), gpr(p_rt(w)), gpr(p_rb(w)))) }
        else if x == 459 { ("divwu"@ + osuf(w) + dot(w), j3(gpr(p_rt(w)), gpr(p_ra(w)), gpr(p_rb(w)))) }
        else if x == 476 { ("nand"@ + dot(w), j3(gpr(p_ra(w)), gpr(p_rt(w)), gpr(p_rb(w)))) }
        else if x == 491 { ("divw"@ + osuf(w) + dot(w), j3(gpr(p_rt(w)), gpr(p_ra(w)), gpr(p_rb(w)))) }
        else if x == 536 { ("srw"@ + dot(w), j3(gpr(p_ra(w)), gpr(p_rt(w)), gpr(p_rb(w)))) }
        else if x == 792 { ("sraw"@ + dot(w), j3(gpr(p_ra(w)), gpr(p_rt(w)), gpr(p_rb(w)))) }
        else if x == 824 { ("srawi"@ + dot(w), j3(gpr(p_ra(w)), gpr(p_rt(w)), dec_nat(p_rb(w) as nat))) }
        else if x == 922 { ("extsh"@ + dot(w), j2(gpr(p_ra(w)), gpr(p_rt(w)))) }
        else if x == 954 { ("extsb"@ + dot(w), j2(gpr(p_ra(w)), gpr(p_rt(w)))) }
        else { (".word"@, "0x"@ + hex_fixed(w as nat, 8)) }
    }
}

/// D-form loads and stores (ops 32..=55).
pub open spec fn ppc_dform(w: u32) -> (Seq<char>, Seq<char>) {
    let op = p_op(w);
    if op == 32 { ("lwz"@, j2(gpr(p_rt(w)), d_form(w, p_simm(w)))) }
    else if op == 33 { ("lwzu"@, j2(gpr(p_rt(w)), d_form(w, p_simm(w)))) }
    else if op == 34 { ("lbz"@, j2(gpr(p_rt(w)), d_form(w, p_simm(w)))) }
    else if op == 35 { ("lbzu"@, j2(gpr(p_rt(w)), d_form(w, p_simm(w)))) }
    else if op == 36 { ("stw"@, j2(gpr(p_rt(w)), d_form(w, p_simm(w)))) }
    else if op == 37 { ("stwu"@, j2(gpr(p_rt(w)), d_form(w, p_simm(w)))) }
    else if op == 38 { ("stb"@, j2(gpr(p_rt(w)), d_form(w, p_simm(w)))) }
    else if op == 39 { ("stbu"@, j2(gpr(p_rt(w)), d_form(w, p_simm(w)))) }
    else if op == 40 { ("lhz"@, j2(gpr(p_rt(w)), d_form(w, p_simm(w)))) }
    else if op == 41 { ("lhzu"@, j2(gpr(p_rt(w)), d_form(w, p_simm(w)))) }
    else if op == 42 { ("lha"@, j2(gpr(p_rt(w)), d_form(w, p_simm(w)))) }
    else if op == 43 { ("lhau"@, j2(gpr(p_rt(w)), d_form(w, p_simm(w)))) }
    else if op == 44 { ("sth"@, j2(gpr(p_rt(w)), d_form(w, p_simm(w)))) }
    else if op == 45 { ("sthu"@, j2(gpr(p_rt(w)), d_form(w, p_simm(w)))) }
    else if op == 46 { ("lmw"@, j2(gpr(p_rt(w)), d_form(w, p_simm(w)))) }
    else if op == 47 { ("stmw"@, j2(gpr(p_rt(w)), d_form(w, p_simm(w)))) }
    else if op == 48 { ("lfs"@, j2(fpr(p_rt(w)), d_form(w, p_simm(w)))) }
    else if op == 49 { ("lfsu"@, j2(fpr(p_rt(w)), d_form(w, p_simm(w)))) }
    else if op == 50 { ("lfd"@, j2(fpr(p_rt(w)), d_form(w, p_simm(w)))) }
    else if op == 51 { ("lfdu"@, j2(fpr(p_rt(w)), d_form(w, p_simm(w)))) }
    else if op == 52 { ("stfs"@, j2(fpr(p_rt(w)), d_form(w, p_simm(w)))) }
    else if op == 53 { ("stfsu"@, j2(fpr(p_rt(w)), d_form(w, p_simm(w)))) }
    else if op == 54 { ("stfd"@, j2(fpr(p_rt(w)), d_form(w, p_simm(w)))) }
    else if op == 55 { ("stfdu"@, j2(fpr(p_rt(w)), d_form(w, p_simm(w)))) }
    else { (".word"@, "0x"@ + hex_fixed(w as nat, 8)) }
}

/// DS-form 64-bit loads and stores (ops 58 and 62).
pub open spec fn ppc_ds(w: u32) -> (Seq<char>, Seq<char>) {
    let op = p_op(w);
    let k = w & 3u32;
    let ops = j2(gpr(p_rt(w)), d_form(w, p_ds(w)));
    if op == 58 && k == 0 { ("ld"@, ops) }
    else if op == 58 && k == 1 { ("ldu"@, ops) }
    else if op == 58 && k == 2 { ("lwa"@, ops) }
    else if op == 62 && k == 0 { ("std"@, ops) }
    else if op == 62 && k == 1 { ("stdu"@, ops) }
    else { (".word"@, "0x"@ + hex_fixed(w as nat, 8)) }
}

/// Single-precision float A-form (op 59).
pub open spec fn ppc_59(w: u32) -> (Seq<char>, Seq<char>) {
    let x = p_xo5(w);
    if x == 18 { ("fdivs"@ + dot(w), j3(fpr(p_rt(w)), fpr(p_ra(w)), fpr(p_rb(w)))) }
    else if x == 20 { ("fsubs"@ + dot(w), j3(fpr(p_rt(w)), fpr(p_ra(w)), fpr(p_rb(w)))) }
    else if x == 21 { ("fadds"@ + dot(w), j3(fpr(p_rt(w)), fpr(p_ra(w)), fpr(p_rb(w)))) }
    else if x == 24 { ("fres"@ + dot(w), j2(fpr(p_rt(w)), fpr(p_rb(w)))) }
    else if x == 25 { ("fmuls"@ + dot(w), j3(fpr(p_rt(w)), fpr(p_ra(w)), fpr(p_rc(w)))) }
    else if x == 28 { ("fmsubs"@ + dot(w), j4(fpr(p_rt(w)), fpr(p_ra(w)), fpr(p_rc(w)), fpr(p_rb(w)))) }
    else if x == 29 { ("fmadds"@ + dot(w), j4(fpr(p_rt(w)), fpr(p_ra(w)), fpr(p_rc(w)), fpr(p_rb(w)))) }
    else if x == 30 { ("fnmsubs"@ + dot(w), j4(fpr(p_rt(w)), fpr(p_ra(w)), fpr(p_rc(w)), fpr(p_rb(w)))) }
    else if x == 31 { ("fnmadds"@ + dot(w), j4(fpr(p_rt(w)), fpr(p_ra(w)), fpr(p_rc(w)), fpr(p_rb(w)))) }
    else { (".word"@, "0x"@ + hex_fixed(w as nat, 8)) }
}

/// Float X-form ops of op 63.
pub open spec fn ppc_63x(w: u32) -> (Seq<char>, Seq<char>) {
    let y = p_xo10(w);
    {
        if y == 0 { ("fcmpu"@, j3("cr"@ + dec_nat(p_crf(w) as nat), fpr(p_ra(w)), fpr(p_rb(w)))) }
        else if y == 12 { ("frsp"@ + dot(w), j2(fpr(p_rt(w)), fpr(p_rb(w)))) }
        else if y == 14 { ("fctiw"@ + dot(w), j2(fpr(p_rt(w)), fpr(p_rb(w)))) }
        else if y == 15 { ("fctiwz"@ + dot(w), j2(fpr(p_rt(w)), fpr(p_rb(w)))) }
        else if y == 32 { ("fcmpo"@, j3("cr"@ + dec_nat(p_crf(w) as nat), fpr(p_ra(w)), fpr(p_rb(w)))) }
        else if y == 40 { ("fneg"@ + dot(w), j2(fpr(p_rt(w)), fpr(p_rb(w)))) }
        else if y == 72 { ("fmr"@ + dot(w), j2(fpr(p_rt(w)), fpr(p_rb(w)))) }
        else if y == 264 { ("fabs"@ + dot(w), j2(fpr(p_rt(w)), fpr(p_rb(w)))) }
        else { (".word"@, "0x"@ + hex_fixed(w as nat, 8)) }
    }
}

/// Double-precision float (op 63).
pub open spec fn ppc_63(w: u32) -> (Seq<char>, Seq<char>) {
    let x = p_xo5(w);
    if x == 18 { ("fdiv"@ + dot(w), j3(fpr(p_rt(w)), fpr(p_ra(w)), fpr(p_rb(w)))) }
    else if x == 20 { ("fsub"@ + dot(w), j3(fpr(p_rt(w)), fpr(p_ra(w)), fpr(p_rb(w)))) }
    else if x == 21 { ("fadd"@ + dot(w), j3(fpr(p_rt(w)), fpr(p_ra(w)), fpr(p_rb(w)))) }
    else if x == 25 { ("fmul"@ + dot(w), j3(fpr(p_rt(w)), fpr(p_ra(w)), fpr(p_rc(w)))) }
    else if x == 28 { ("fmsub"@ + dot(w), j4(fpr(p_rt(w)), fpr(p_ra(w)), fpr(p_rc(w)), fpr(p_rb(w)))) }
    else if x == 29 { ("fmadd"@ + dot(w), j4(fpr(p_rt(w)), fpr(p_ra(w)), fpr(p_rc(w)), fpr(p_rb(w)))) }
    else if x == 30 { ("fnmsub"@ + dot(w), j4(fpr(p_rt(w)), fpr(p_ra(w)), fpr(p_rc(w)), fpr(p_rb(w)))) }
    else if x == 31 { ("fnmadd"@ + dot(w), j4(fpr(p_rt(w)), fpr(p_ra(w)), fpr(p_rc(w)), fpr(p_rb(w)))) }
    else { ppc_63x(w) }
}

/// Immediate arithmetic and logic, and anything unknown (`.word`).
pub open spec fn ppc_imm(w: u32) -> (Seq<char>, Seq<char>) {
    let op = p_op(w);
    let crf = p_crf(w);
    if op == 10 {
        if crf == 0 { ("cmplwi"@, j2(gpr(p_ra(w)), "0x"@ + hex_min(p_uimm(w) as nat))) }
        else { ("cmpli"@, j3("cr"@ + dec_nat(crf as nat), gpr(p_ra(w)), "0x"@ + hex_min(p_uimm(w) as nat))) }
    } else if op == 11 {
        if crf == 0 { ("cmpwi"@, j2(gpr(p_ra(w)), dec_int(p_simm(w)))) }
        else { ("cmpi"@, j3("cr"@ + dec_nat(crf as nat), gpr(p_ra(w)), dec_int(p_simm(w)))) }
    } else if op == 14 {
        if p_ra(w) == 0 { ("li"@, j2(gpr(p_rt(w)), dec_int(p_simm(w)))) }
        else { ("addi"@, j3(gpr(p_rt(w)), gpr(p_ra(w)), dec_int(p_simm(w)))) }
    } else if op == 15 {
        if p_ra(w) == 0 { ("lis"@, j2(gpr(p_rt(w)), "0x"@ + hex_min(p_uimm(w) as nat))) }
        else { ("addis"@, j3(gpr(p_rt(w)), gpr(p_ra(w)), dec_int(p_simm(w)))) }
    } else if op == 24 {
        if w == 0x6000_0000 { ("nop"@, Seq::empty()) }
        else { ("ori"@, j3(gpr(p_ra(w)), gpr(p_rt(w)), "0x"@ + hex_min(p_uimm(w) as nat))) }
    } else {
    if op == 7 { ("mulli"@, j3(gpr(p_rt(w)), gpr(p_ra(w)), dec_int(p_simm(w)))) }
    else if op == 8 { ("subfic"@, j3(gpr(p_rt(w)), gpr(p_ra(w)), dec_int(p_simm(w)))) }
    else if op == 25 { ("oris"@, j3(gpr(p_ra(w)), gpr(p_rt(w)), "0x"@ + hex_min(p_uimm(w) as nat))) }
    else if op == 26 { ("xori"@, j3(gpr(p_ra(w)), gpr(p_rt(w)), "0x"@ + hex_min(p_uimm(w) as nat))) }
    else if op == 27 { ("xoris"@, j3(gpr(p_ra(w)), gpr(p_rt(w)), "0x"@ + hex_min(p_uimm(w) as nat))) }
    else if op == 28 { ("andi."@, j3(gpr(p_ra(w)), gpr(p_rt(w)), "0x"@ + hex_min(p_uimm(w) as nat))) }
    else if op == 29 { ("andis."@, j3(gpr(p_ra(w)), gpr(p_rt(w)), "0x"@ + hex_min(p_uimm(w) as nat))) }
    else { (".word"@, "0x"@ + hex_fixed(w as nat, 8)) }
    }
}

/// The (mnemonic, operands) text of the word `w` at address `pc`.
pub open spec fn ppc_text(w: u32, pc: u64) -> (Seq<char>, Seq<char>) {
    let op = p_op(w);
    if op == 16 || op == 17 || op == 18 { ppc_branch(w, pc) }
    else if op == 19 { ppc_19(w) }
    else if op == 31 { ppc_31(w) }
    else if op == 4 {
        if p_xo10(w) == 424 { ("mullhw"@ + dot(w), j3(gpr(p_rt(w)), gpr(p_ra(w)), gpr(p_rb(w)))) }
        else if p_xo10(w) == 392 { ("mullhwu"@ + dot(w), j3(gpr(p_rt(w)), gpr(p_ra(w)), gpr(p_rb(w)))) }
        else { (".word"@, "0x"@ + hex_fixed(w as nat, 8)) }
    }
    else if 32 <= op <= 55 { ppc_dform(w) }
    else if op == 58 || op == 62 { ppc_ds(w) }
    else if op == 59 { ppc_59(w) }
    else if op == 63 { ppc_63(w) }
    else { ppc_imm(w) }
}

// ---------------------------------------------------------------------------
// Text helpers
// ---------------------------------------------------------------------------

proof fn lemma_ppc_fields(w: u32)
    by (bit_vector)
    ensures
        w >> 26u32 < 64,
        (w >> 21u32) & 0x1Fu32 < 32,
        (w >> 16u32) & 0x1Fu32 < 32,
        (w >> 11u32) & 0x1Fu32 < 32,
        (w >> 6u32) & 0x1Fu32 < 32,
        (w >> 1u32) & 0x3FFu32 < 1024,
        (w >> 1u32) & 0x1Fu32 < 32,
        (w >> 23u32) & 0x7u32 < 8,
        (w >> 18u32) & 0x7u32 < 8,
        (w >> 12u32) & 0xFFu32 < 256,
        w & 0xFFFFu32 < 65536,
        w & 0x03FF_FFFCu32 < 0x0400_0000,
        w & 0xFFFCu32 < 0x10000,
        (w >> 2u32) & 0x3FFFu32 < 0x4000,
        w & 3u32 < 4,
{
}

fn gpr_s(x: u32) -> (r: String)
    ensures
        r@ == gpr(x),
{
    let mut s = owned("r");
    push_dec_u64(&mut s, x as u64);
    s
}

fn fpr_s(x: u32) -> (r: String)
    ensures
        r@ == fpr(x),
{
    let mut s = owned("f");
    push_dec_u64(&mut s, x as u64);
    s
}

fn cr_s(x: u32) -> (r: String)
    ensures
        r@ == "cr"@ + dec_nat(x as nat),
{
    let mut s = owned("cr");
    push_dec_u64(&mut s, x as u64);
    s
}

fn dec_s(x: u32) -> (r: String)
    ensures
        r@ == dec_nat(x as nat),
{
    let mut s = String::new();
    push_dec_u64(&mut s, x as u64);
    assert(s@ =~= dec_nat(x as nat));
    s
}

fn idec_s(x: i32) -> (r: String)
    ensures
        r@ == dec_int(x as int),
{
    let mut s = String::new();
    push_dec_i64(&mut s, x as i64);
    assert(s@ =~= dec_int(x as int));
    s
}

fn hex_s(x: u32) -> (r: String)
    ensures
        r@ == "0x"@ + hex_min(x as nat),
{
    let mut s = owned("0x");
    push_hex_min(&mut s, x);
    s
}

fn hex8_s(x: u32) -> (r: String)
    ensures
        r@ == "0x"@ + hex_fixed(x as nat, 8),
{
    let mut s = owned("0x");
    push_hex_fixed(&mut s, x, 8);
    s
}

fn hex2_s(x: u32) -> (r: String)
    ensures
        r@ == "0x"@ + hex_fixed(x as nat, 2),
{
    let mut s = owned("0x");
    push_hex_fixed(&mut s, x, 2);
    s
}

fn hex64_s(x: u64) -> (r: String)
    ensures
        r@ == "0x"@ + hex_min(x as nat),
{
    let mut s = owned("0x");
    push_hex_min64(&mut s, x);
    s
}

fn j2s(a: String, b: String) -> (r: String)
    ensures
        r@ == j2(a@, b@),
{
    let mut s = a;
    push_str(&mut s, ", ");
    push_str(&mut s, b.as_str());
    s
}

fn j3s(a: String, b: String, c: String) -> (r: String)
    ensures
        r@ == j3(a@, b@, c@),
{
    let mut s = a;
    push_str(&mut s, ", ");
    push_str(&mut s, b.as_str());
    push_str(&mut s, ", ");
    push_str(&mut s, c.as_str());
    s
}

fn j4s(a: String, b: String, c: String, d: String) -> (r: String)
    ensures
        r@ == j4(a@, b@, c@, d@),
{
    let mut s = a;
    push_str(&mut s, ", ");
    push_str(&mut s, b.as_str());
    push_str(&mut s, ", ");
    push_str(&mut s, c.as_str());
    push_str(&mut s, ", ");
    push_str(&mut s, d.as_str());
    s
}

fn mn_dot(w: u32, base: &str) -> (r: String)
    ensures
        r@ == base@ + dot(w),
{
    let mut s = owned(base);
    if w & 1 != 0 {
        push_str(&mut s, ".");
    }
    assert(s@ =~= base@ + dot(w));
    s
}

fn mn_odot(w: u32, base: &str) -> (r: String)
    ensures
        r@ == base@ + osuf(w) + dot(w),
{
    let mut s = owned(base);
    if (w >> 10) & 1 != 0 {
        push_str(&mut s, "o");
    }
    if w & 1 != 0 {
        push_str(&mut s, ".");
    }
    assert(s@ =~= base@ + osuf(w) + dot(w));
    s
}

fn mn_l(w: u32, base: &str) -> (r: String)
    ensures
        r@ == base@ + lsuf(w),
{
    let mut s = owned(base);
    if w & 1 != 0 {
        push_str(&mut s, "l");
    }
    assert(s@ =~= base@ + lsuf(w));
    s
}

fn d_form_s(w: u32, disp: i32) -> (r: String)
    ensures
        r@ == d_form(w, disp as int),
{
    proof { lemma_ppc_fields(w); }
    let ra: u32 = (w >> 16) & 0x1F;
    if ra == 0 {
        let mut s = idec_s(disp);
        push_str(&mut s, "(0)");
        s
    } else {
        let mut s = if disp >= 0 { owned("0x") } else { owned("-0x") };
        if disp >= 0 {
            push_hex_min64(&mut s, disp as u64);
        } else {
            push_hex_min64(&mut s, (-(disp as i64)) as u64);
        }
        push_str(&mut s, "(");
        let g = gpr_s(ra);
        push_str(&mut s, g.as_str());
        push_str(&mut s, ")");
        s
    }
}

fn spr_s(spr: u32) -> (r: String)
    ensures
        r@ == spr_text(spr),
{
    if spr == 1 { owned("xer") } else if spr == 8 { owned("lr") } else if spr == 9 { owned("ctr") }
    else if spr == 18 { owned("dsisr") } else if spr == 19 { owned("dar") } else if spr == 22 { owned("dec") }
    else if spr == 26 { owned("srr0") } else if spr == 27 { owned("srr1") }
    else if 272 <= spr && spr <= 275 {
        let mut s = owned("sprg");
        push_dec_u64(&mut s, (spr - 272) as u64);
        s
    }
    else if spr == 287 { owned("pvr") }
    else {
        let mut s = owned("spr");
        push_dec_u64(&mut s, spr as u64);
        s
    }
}

fn cond_alias_s(bo: u32, bi: u32) -> (r: Option<&'static str>)
    ensures
        match r {
            Some(a) => cond_alias(bo, bi) == Some(a@),
            None => cond_alias(bo, bi) is None,
        },
{
    if bo == 12 && bi == 0 { Some("blt") } else if bo == 4 && bi == 1 { Some("ble") }
    else if bo == 12 && bi == 2 { Some("beq") } else if bo == 4 && bi == 0 { Some("bge") }
    else if bo == 12 && bi == 1 { Some("bgt") } else if bo == 4 && bi == 2 { Some("bne") }
    else if bo == 12 && bi == 3 { Some("bso") } else if bo == 4 && bi == 3 { Some("bns") }
    else { None }
}

fn target_of(w: u32, disp: i64, pc: u64) -> (t: u64)
    requires
        !p_aa(w) ==> i64::MIN <= signed_pc(pc) + disp <= i64::MAX,
    ensures
        t == ppc_target(w, disp as int, pc),
{
    if w & 2 != 0 {
        disp as u64
    } else {
        pc.wrapping_add(disp as u64)
    }
}

// ---------------------------------------------------------------------------
// Decoder
// ---------------------------------------------------------------------------

fn branch_text(w: u32, pc: u64) -> (r: (String, String))
    requires
        p_op(w) == 16 || p_op(w) == 17 || p_op(w) == 18,
        ppc_branch_fits(w, pc),
    ensures
        (r.0@, r.1@) == ppc_branch(w, pc),
{
    proof { lemma_ppc_fields(w); }
    let op: u32 = w >> 26;
    let bo: u32 = (w >> 21) & 0x1F;
    let bi: u32 = (w >> 16) & 0x1F;
    if op == 17 {
        (owned("sc"), String::new())
    } else if op == 18 {
        let v: u32 = w & 0x03FF_FFFC;
        let li: i64 = if v < 0x0200_0000 { v as i64 } else { v as i64 - 0x0400_0000 };
        let t = hex64_s(target_of(w, li, pc));
        if w & 1 != 0 { (owned("bl"), t) } else { (owned("b"), t) }
    } else {
        let v: u32 = w & 0xFFFC;
        let bd: i64 = if v < 0x8000 { v as i64 } else { v as i64 - 0x10000 };
        let t = hex64_s(target_of(w, bd, pc));
        if bo == 20 { (mn_l(w, "b"), t) }
        else if bo == 16 { (mn_l(w, "bdnz"), t) }
        else if bo == 18 { (mn_l(w, "bdz"), t) }
        else {
            match cond_alias_s(bo, bi) {
                Some(a) => (mn_l(w, a), t),
                None => (mn_l(w, "bc"), j3s(dec_s(bo), dec_s(bi), t)),
            }
        }
    }
}

fn op19_text(w: u32) -> (r: (String, String))
    ensures
        (r.0@, r.1@) == ppc_19(w),
{
    proof { lemma_ppc_fields(w); }
    let x: u32 = (w >> 1) & 0x3FF;
    let rt: u32 = (w >> 21) & 0x1F;
    let ra: u32 = (w >> 16) & 0x1F;
    let rb: u32 = (w >> 11) & 0x1F;
    let bo = rt;
    let bi = ra;
    let lk = w & 1 != 0;
    if x == 0 { (owned("mcrf"), j2s(cr_s((w >> 23) & 0x7), cr_s((w >> 18) & 0x7))) }
    else if x == 16 {
        if bo == 20 && bi == 0 && !lk { (owned("blr"), String::new()) }
        else if bo == 20 && bi == 0 && lk { (owned("blrl"), String::new()) }
        else {
            match cond_alias_s(bo, bi) {
                Some(a) => {
                    let mut m = owned(a);
                    push_str(&mut m, "lr");
                    if lk {
                        push_str(&mut m, "l");
                    }
                    assert(m@ =~= a@ + "lr"@ + lsuf(w));
                    (m, String::new())
                },
                None => (mn_l(w, "bclr"), j2s(dec_s(bo), dec_s(bi))),
            }
        }
    }
    else if x == 528 {
        if bo == 20 { (mn_l(w, "bctr"), String::new()) } else { (mn_l(w, "bcctr"), String::new()) }
    }
    else {
        if x == 18 { (owned("rfid"), String::new()) }
        else if x == 33 { (owned("crnor"), j3s(dec_s(rt), dec_s(ra), dec_s(rb))) }
        else if x == 50 { (owned("rfi"), String::new()) }
        else if x == 129 { (owned("crandc"), j3s(dec_s(rt), dec_s(ra), dec_s(rb))) }
        else if x == 150 { (owned("isync"), String::new()) }
        else if x == 193 { (owned("crxor"), j3s(dec_s(rt), dec_s(ra), dec_s(rb))) }
        else if x == 225 { (owned("crnand"), j3s(dec_s(rt), dec_s(ra), dec_s(rb))) }
        else if x == 257 { (owned("crand"), j3s(dec_s(rt), dec_s(ra), dec_s(rb))) }
        else if x == 289 { (owned("creqv"), j3s(dec_s(rt), dec_s(ra), dec_s(rb))) }
        else if x == 417 { (owned("crorc"), j3s(dec_s(rt), dec_s(ra), dec_s(rb))) }
        else if x == 449 { (owned("cror"), j3s(dec_s(rt), dec_s(ra), dec_s(rb))) }
        else { (owned(".word"), hex8_s(w)) }
    }
}

fn op31_text(w: u32) -> (r: (String, String))
    ensures
        (r.0@, r.1@) == ppc_31(w),
{
    proof { lemma_ppc_fields(w); }
    let x: u32 = (w >> 1) & 0x3FF;
    let rt: u32 = (w >> 21) & 0x1F;
    let ra: u32 = (w >> 16) & 0x1F;
    let rb: u32 = (w >> 11) & 0x1F;
    let crf: u32 = (w >> 23) & 0x7;
    let crm: u32 = (w >> 12) & 0xFF;
    let spr: u32 = rb * 32 + ra;
    if x == 0 { (owned("cmp"), j3s(cr_s(crf), gpr_s(ra), gpr_s(rb))) }
    else if x == 32 { (owned("cmpl"), j3s(cr_s(crf), gpr_s(ra), gpr_s(rb))) }
    else if x == 124 {
        if rt == rb { (mn_dot(w, "not"), j2s(gpr_s(ra), gpr_s(rt))) }
        else { (mn_dot(w, "nor"), j3s(gpr_s(ra), gpr_s(rt), gpr_s(rb))) }
    }
    else if x == 339 {
        if spr == 1 { (owned("mfxer"), gpr_s(rt)) } else if spr == 8 { (owned("mflr"), gpr_s(rt)) }
        else if spr == 9 { (owned("mfctr"), gpr_s(rt)) } else { (owned("mfspr"), j2s(gpr_s(rt), spr_s(spr))) }
    }
    else if x == 444 {
        if rt == rb { (mn_dot(w, "mr"), j2s(gpr_s(ra), gpr_s(rt))) }
        else { (mn_dot(w, "or"), j3s(gpr_s(ra), gpr_s(rt), gpr_s(rb))) }
    }
    else if x == 467 {
        if spr == 1 { (owned("mtxer"), gpr_s(rt)) } else if spr == 8 { (owned("mtlr"), gpr_s(rt)) }
        else if spr == 9 { (owned("mtctr"), gpr_s(rt)) } else { (owned("mtspr"), j2s(spr_s(spr), gpr_s(rt))) }
    }
    else {
        if x == 4 { (owned("tw"), j3s(dec_s(rt), gpr_s(ra), gpr_s(rb))) }
        else if x == 8 { (mn_odot(w, "subfc"), j3s(gpr_s(rt), gpr_s(ra), gpr_s(rb))) }
        else if x == 10 { (mn_odot(w, "addc"), j3s(gpr_s(rt), gpr_s(ra), gpr_s(rb))) }
        else if x == 19 { (owned("mfcr"), gpr_s(rt)) }
        else if x == 23 { (owned("lwzx"), j3s(gpr_s(rt), gpr_s(ra), gpr_s(rb))) }
        else if x == 24 { (mn_dot(w, "slw"), j3s(gpr_s(ra), gpr_s(rt), gpr_s(rb))) }
        else if x == 26 { (mn_dot(w, "cntlzw"), j2s(gpr_s(ra), gpr_s(rt))) }
        else if x == 28 { (mn_dot(w, "and"), j3s(gpr_s(ra), gpr_s(rt), gpr_s(rb))) }
        else if x == 40 { (mn_odot(w, "subf"), j3s(gpr_s(rt), gpr_s(ra), gpr_s(rb))) }
        else if x == 60 { (mn_dot(w, "andc"), j3s(gpr_s(ra), gpr_s(rt), gpr_s(rb))) }
        else if x == 87 { (owned("lbzx"), j3s(gpr_s(rt), gpr_s(ra), gpr_s(rb))) }
        else if x == 104 { (mn_odot(w, "neg"), j2s(gpr_s(rt), gpr_s(ra))) }
        else if x == 136 { (mn_odot(w, "subfe"), j3s(gpr_s(rt), gpr_s(ra), gpr_s(rb))) }
        else if x == 138 { (mn_odot(w, "adde"), j3s(gpr_s(rt), gpr_s(ra), gpr_s(rb))) }
        else if x == 144 { (owned("mtcrf"), j2s(hex2_s(crm), gpr_s(rt))) }
        else if x == 151 { (owned("stwx"), j3s(gpr_s(rt), gpr_s(ra), gpr_s(rb))) }
        else if x == 200 { (mn_odot(w, "subfze"), j2s(gpr_s(rt), gpr_s(ra))) }
        else if x == 202 { (mn_odot(w, "addze"), j2s(gpr_s(rt), gpr_s(ra))) }
        else if x == 215 { (owned("stbx"), j3s(gpr_s(rt), gpr_s(ra), gpr_s(rb))) }
        else if x == 232 { (mn_odot(w, "subfme"), j2s(gpr_s(rt), gpr_s(ra))) }
        else if x == 234 { (mn_odot(w, "addme"), j2s(gpr_s(rt), gpr_s(ra))) }
        else if x == 235 { (mn_odot(w, "mullw"), j3s(gpr_s(rt), gpr_s(ra), gpr_s(rb))) }
        else if x == 266 { (mn_odot(w, "add"), j3s(gpr_s(rt), gpr_s(ra), gpr_s(rb))) }
        else if x == 279 { (owned("lhzx"), j3s(gpr_s(rt), gpr_s(ra), gpr_s(rb))) }
        else if x == 284 { (mn_dot(w, "eqv"), j3s(gpr_s(ra), gpr_s(rt), gpr_s(rb))) }
        else if x == 316 { (mn_dot(w, "xor"), j3s(gpr_s(ra), gpr_s(rt), gpr_s(rb))) }
        else if x == 343 { (owned("lhax"), j3s(gpr_s(rt), gpr_s(ra), gpr_s(rb))) }
        else if x == 407 { (owned("sthx"), j3s(gpr_s(rt), gpr_s(ra), gpr_s(rb))) }
        else if x == 412 { (mn_dot(w, "orc"), j3s(gpr_s(ra), gpr_s(rt), gpr_s(rb))) }
        else if x == 459 { (mn_odot(w, "divwu"), j3s(gpr_s(rt), gpr_s(ra), gpr_s(rb))) }
        else if x == 476 { (mn_dot(w, "nand"), j3s(gpr_s(ra), gpr_s(rt), gpr_s(rb))) }
        else if x == 491 { (mn_odot(w, "divw"), j3s(gpr_s(rt), gpr_s(ra), gpr_s(rb))) }
        else if x == 536 { (mn_dot(w, "srw"), j3s(gpr_s(ra), gpr_s(rt), gpr_s(rb))) }
        else if x == 792 { (mn_dot(w, "sraw"), j3s(gpr_s(ra), gpr_s(rt), gpr_s(rb))) }
        else if x == 824 { (mn_dot(w, "srawi"), j3s(gpr_s(ra), gpr_s(rt), dec_s(rb))) }
        else if x == 922 { (mn_dot(w, "extsh"), j2s(gpr_s(ra), gpr_s(rt))) }
        else if x == 954 { (mn_dot(w, "extsb"), j2s(gpr_s(ra), gpr_s(rt))) }
        else { (owned(".word"), hex8_s(w)) }
    }
}

fn dform_text(w: u32) -> (r: (String, String))
    requires
        32 <= p_op(w) <= 55,
    ensures
        (r.0@, r.1@) == ppc_dform(w),
{
    proof { lemma_ppc_fields(w); }
    let op: u32 = w >> 26;
    let rt: u32 = (w >> 21) & 0x1F;
    let u: u32 = w & 0xFFFF;
    let simm: i32 = if u < 0x8000 { u as i32 } else { u as i32 - 0x10000 };
    if op == 32 { (owned("lwz"), j2s(gpr_s(rt), d_form_s(w, simm))) }
    else if op == 33 { (owned("lwzu"), j2s(gpr_s(rt), d_form_s(w, simm))) }
    else if op == 34 { (owned("lbz"), j2s(gpr_s(rt), d_form_s(w, simm))) }
    else if op == 35 { (owned("lbzu"), j2s(gpr_s(rt), d_form_s(w, simm))) }
    else if op == 36 { (owned("stw"), j2s(gpr_s(rt), d_form_s(w, simm))) }
    else if op == 37 { (owned("stwu"), j2s(gpr_s(rt), d_form_s(w, simm))) }
    else if op == 38 { (owned("stb"), j2s(gpr_s(rt), d_form_s(w, simm))) }
    else if op == 39 { (owned("stbu"), j2s(gpr_s(rt), d_form_s(w, simm))) }
    else if op == 40 { (owned("lhz"), j2s(gpr_s(rt), d_form_s(w, simm))) }
    else if op == 41 { (owned("lhzu"), j2s(gpr_s(rt), d_form_s(w, simm))) }
    else if op == 42 { (owned("lha"), j2s(gpr_s(rt), d_form_s(w, simm))) }
    else if op == 43 { (owned("lhau"), j2s(gpr_s(rt), d_form_s(w, simm))) }
    else if op == 44 { (owned("sth"), j2s(gpr_s(rt), d_form_s(w, simm))) }
    else if op == 45 { (owned("sthu"), j2s(gpr_s(rt), d_form_s(w, simm))) }
    else if op == 46 { (owned("lmw"), j2s(gpr_s(rt), d_form_s(w, simm))) }
    else if op == 47 { (owned("stmw"), j2s(gpr_s(rt), d_form_s(w, simm))) }
    else if op == 48 { (owned("lfs"), j2s(fpr_s(rt), d_form_s(w, simm))) }
    else if op == 49 { (owned("lfsu"), j2s(fpr_s(rt), d_form_s(w, simm))) }
    else if op == 50 { (owned("lfd"), j2s(fpr_s(rt), d_form_s(w, simm))) }
    else if op == 51 { (owned("lfdu"), j2s(fpr_s(rt), d_form_s(w, simm))) }
    else if op == 52 { (owned("stfs"), j2s(fpr_s(rt), d_form_s(w, simm))) }
    else if op == 53 { (owned("stfsu"), j2s(fpr_s(rt), d_form_s(w, simm))) }
    else if op == 54 { (owned("stfd"), j2s(fpr_s(rt), d_form_s(w, simm))) }
    else if op == 55 { (owned("stfdu"), j2s(fpr_s(rt), d_form_s(w, simm))) }
    else { (owned(".word"), hex8_s(w)) }
}

fn ds_text(w: u32) -> (r: (String, String))
    requires
        p_op(w) == 58 || p_op(w) == 62,
    ensures
        (r.0@, r.1@) == ppc_ds(w),
{
    proof { lemma_ppc_fields(w); }
    let op: u32 = w >> 26;
    let rt: u32 = (w >> 21) & 0x1F;
    let k: u32 = w & 3;
    let v: u32 = (w >> 2) & 0x3FFF;
    let ds: i32 = (if v < 0x2000 { v as i32 } else { v as i32 - 0x4000 }) * 4;
    if op == 58 && k == 0 { (owned("ld"), j2s(gpr_s(rt), d_form_s(w, ds))) }
    else if op == 58 && k == 1 { (owned("ldu"), j2s(gpr_s(rt), d_form_s(w, ds))) }
    else if op == 58 && k == 2 { (owned("lwa"), j2s(gpr_s(rt), d_form_s(w, ds))) }
    else if op == 62 && k == 0 { (owned("std"), j2s(gpr_s(rt), d_form_s(w, ds))) }
    else if op == 62 && k == 1 { (owned("stdu"), j2s(gpr_s(rt), d_form_s(w, ds))) }
    else { (owned(".word"), hex8_s(w)) }
}

fn op59_text(w: u32) -> (r: (String, String))
    requires
        p_op(w) == 59,
    ensures
        (r.0@, r.1@) == ppc_59(w),
{
    proof { lemma_ppc_fields(w); }
    let x: u32 = (w >> 1) & 0x1F;
    let rt: u32 = (w >> 21) & 0x1F;
    let ra: u32 = (w >> 16) & 0x1F;
    let rb: u32 = (w >> 11) & 0x1F;
    let rc: u32 = (w >> 6) & 0x1F;
    if x == 18 { (mn_dot(w, "fdivs"), j3s(fpr_s(rt), fpr_s(ra), fpr_s(rb))) }
    else if x == 20 { (mn_dot(w, "fsubs"), j3s(fpr_s(rt), fpr_s(ra), fpr_s(rb))) }
    else if x == 21 { (mn_dot(w, "fadds"), j3s(fpr_s(rt), fpr_s(ra), fpr_s(rb))) }
    else if x == 24 { (mn_dot(w, "fres"), j2s(fpr_s(rt), fpr_s(rb))) }
    else if x == 25 { (mn_dot(w, "fmuls"), j3s(fpr_s(rt), fpr_s(ra), fpr_s(rc))) }
    else if x == 28 { (mn_dot(w, "fmsubs"), j4s(fpr_s(rt), fpr_s(ra), fpr_s(rc), fpr_s(rb))) }
    else if x == 29 { (mn_dot(w, "fmadds"), j4s(fpr_s(rt), fpr_s(ra), fpr_s(rc), fpr_s(rb))) }
    else if x == 30 { (mn_dot(w, "fnmsubs"), j4s(fpr_s(rt), fpr_s(ra), fpr_s(rc), fpr_s(rb))) }
    else if x == 31 { (mn_dot(w, "fnmadds"), j4s(fpr_s(rt), fpr_s(ra), fpr_s(rc), fpr_s(rb))) }
    else { (owned(".word"), hex8_s(w)) }
}

fn op63x_text(w: u32) -> (r: (String, String))
    ensures
        (r.0@, r.1@) == ppc_63x(w),
{
    proof { lemma_ppc_fields(w); }
    let y: u32 = (w >> 1) & 0x3FF;
    let rt: u32 = (w >> 21) & 0x1F;
    let ra: u32 = (w >> 16) & 0x1F;
    let rb: u32 = (w >> 11) & 0x1F;
    let crf: u32 = (w >> 23) & 0x7;
    {
        if y == 0 { (owned("fcmpu"), j3s(cr_s(crf), fpr_s(ra), fpr_s(rb))) }
        else if y == 12 { (mn_dot(w, "frsp"), j2s(fpr_s(rt), fpr_s(rb))) }
        else if y == 14 { (mn_dot(w, "fctiw"), j2s(fpr_s(rt), fpr_s(rb))) }
        else if y == 15 { (mn_dot(w, "fctiwz"), j2s(fpr_s(rt), fpr_s(rb))) }
        else if y == 32 { (owned("fcmpo"), j3s(cr_s(crf), fpr_s(ra), fpr_s(rb))) }
        else if y == 40 { (mn_dot(w, "fneg"), j2s(fpr_s(rt), fpr_s(rb))) }
        else if y == 72 { (mn_dot(w, "fmr"), j2s(fpr_s(rt), fpr_s(rb))) }
        else if y == 264 { (mn_dot(w, "fabs"), j2s(fpr_s(rt), fpr_s(rb))) }
        else { (owned(".word"), hex8_s(w)) }
    }
}

fn op63_text(w: u32) -> (r: (String, String))
    requires
        p_op(w) == 63,
    ensures
        (r.0@, r.1@) == ppc_63(w),
{
    proof { lemma_ppc_fields(w); }
    let x: u32 = (w >> 1) & 0x1F;
    let rt: u32 = (w >> 21) & 0x1F;
    let ra: u32 = (w >> 16) & 0x1F;
    let rb: u32 = (w >> 11) & 0x1F;
    let rc: u32 = (w >> 6) & 0x1F;
    if x == 18 { (mn_dot(w, "fdiv"), j3s(fpr_s(rt), fpr_s(ra), fpr_s(rb))) }
    else if x == 20 { (mn_dot(w, "fsub"), j3s(fpr_s(rt), fpr_s(ra), fpr_s(rb))) }
    else if x == 21 { (mn_dot(w, "fadd"), j3s(fpr_s(rt), fpr_s(ra), fpr_s(rb))) }
    else if x == 25 { (mn_dot(w, "fmul"), j3s(fpr_s(rt), fpr_s(ra), fpr_s(rc))) }
    else if x == 28 { (mn_dot(w, "fmsub"), j4s(fpr_s(rt), fpr_s(ra), fpr_s(rc), fpr_s(rb))) }
    else if x == 29 { (mn_dot(w, "fmadd"), j4s(fpr_s(rt), fpr_s(ra), fpr_s(rc), fpr_s(rb))) }
    else if x == 30 { (mn_dot(w, "fnmsub"), j4s(fpr_s(rt), fpr_s(ra), fpr_s(rc), fpr_s(rb))) }
    else if x == 31 { (mn_dot(w, "fnmadd"), j4s(fpr_s(rt), fpr_s(ra), fpr_s(rc), fpr_s(rb))) }
    else { op63x_text(w) }
}

fn imm_text(w: u32) -> (r: (String, String))
    ensures
        (r.0@, r.1@) == ppc_imm(w),
{
    proof { lemma_ppc_fields(w); }
    let op: u32 = w >> 26;
    let rt: u32 = (w >> 21) & 0x1F;
    let ra: u32 = (w >> 16) & 0x1F;
    let crf: u32 = (w >> 23) & 0x7;
    let uimm: u32 = w & 0xFFFF;
    let simm: i32 = if uimm < 0x8000 { uimm as i32 } else { uimm as i32 - 0x10000 };
    if op == 10 {
        if crf == 0 { (owned("cmplwi"), j2s(gpr_s(ra), hex_s(uimm))) }
        else { (owned("cmpli"), j3s(cr_s(crf), gpr_s(ra), hex_s(uimm))) }
    } else if op == 11 {
        if crf == 0 { (owned("cmpwi"), j2s(gpr_s(ra), idec_s(simm))) }
        else { (owned("cmpi"), j3s(cr_s(crf), gpr_s(ra), idec_s(simm))) }
    } else if op == 14 {
        if ra == 0 { (owned("li"), j2s(gpr_s(rt), idec_s(simm))) }
        else { (owned("addi"), j3s(gpr_s(rt), gpr_s(ra), idec_s(simm))) }
    } else if op == 15 {
        if ra == 0 { (owned("lis"), j2s(gpr_s(rt), hex_s(uimm))) }
        else { (owned("addis"), j3s(gpr_s(rt), gpr_s(ra), idec_s(simm))) }
    } else if op == 24 {
        if w == 0x6000_0000 { (owned("nop"), String::new()) }
        else { (owned("ori"), j3s(gpr_s(ra), gpr_s(rt), hex_s(uimm))) }
    } else {
    if op == 7 { (owned("mulli"), j3s(gpr_s(rt), gpr_s(ra), idec_s(simm))) }
    else if op == 8 { (owned("subfic"), j3s(gpr_s(rt), gpr_s(ra), idec_s(simm))) }
    else if op == 25 { (owned("oris"), j3s(gpr_s(ra), gpr_s(rt), hex_s(uimm))) }
    else if op == 26 { (owned("xori"), j3s(gpr_s(ra), gpr_s(rt), hex_s(uimm))) }
    else if op == 27 { (owned("xoris"), j3s(gpr_s(ra), gpr_s(rt), hex_s(uimm))) }
    else if op == 28 { (owned("andi."), j3s(gpr_s(ra), gpr_s(rt), hex_s(uimm))) }
    else if op == 29 { (owned("andis."), j3s(gpr_s(ra), gpr_s(rt), hex_s(uimm))) }
    else { (owned(".word"), hex8_s(w)) }
    }
}

/// Decode one PowerPC word at address `pc` into (mnemonic, operands).
pub fn decode_ppc_instruction(instr: u32, pc: u64) -> (r: (String, String))
    requires
        ppc_branch_fits(instr, pc),
    ensures
        (r.0@, r.1@) == ppc_text(instr, pc),
{
    proof { lemma_ppc_fields(instr); }
    let w = instr;
    let op: u32 = w >> 26;
    if op == 16 || op == 17 || op == 18 { branch_text(w, pc) }
    else if op == 19 { op19_text(w) }
    else if op == 31 { op31_text(w) }
    else if op == 4 {
        let x: u32 = (w >> 1) & 0x3FF;
        let rt: u32 = (w >> 21) & 0x1F;
        let ra: u32 = (w >> 16) & 0x1F;
        let rb: u32 = (w >> 11) & 0x1F;
        if x == 424 { (mn_dot(w, "mullhw"), j3s(gpr_s(rt), gpr_s(ra), gpr_s(rb))) }
        else if x == 392 { (mn_dot(w, "mullhwu"), j3s(gpr_s(rt), gpr_s(ra), gpr_s(rb))) }
        else { (owned(".word"), hex8_s(w)) }
    }
    else if 32 <= op && op <= 55 { dform_text(w) }
    else if op == 58 || op == 62 { ds_text(w) }
    else if op == 59 { op59_text(w) }
    else if op == 63 { op63_text(w) }
    else { imm_text(w) }
}


// ---------------------------------------------------------------------------
// Listings
// ---------------------------------------------------------------------------

/// A decoded instruction.
#[derive(Debug, Clone)]
pub struct PpcInstruction {
    pub address: u64,
    pub bytes: Vec<u8>,
    pub mnemonic: String,
    pub operands: String,
    pub size: usize,
}

/// Byte order of the instruction words.
#[derive(Debug, Clone, Copy, PartialEq, Eq, Structural)]
pub enum PpcEndian {
    Little,
    Big,
}

/// An instruction as plain values: (address, bytes, mnemonic, operands, size).
pub open spec fn ppc_view(i: PpcInstruction) -> (u64, Seq<u8>, Seq<char>, Seq<char>, usize) {
    (i.address, i.bytes@, i.mnemonic@, i.operands@, i.size)
}

/// How many words a listing from `start` decodes: whole words inside the
/// data, at most `max`.
pub open spec fn listing_len(len: nat, start: int, max: nat) -> nat {
    if start > len { 0 } else if (len - start) / 4 < max { ((len - start) / 4) as nat } else { max }
}

/// Entry `k` of the listing from byte `start` shown at `base`.
pub open spec fn ppc_entry(d: Seq<u8>, start: int, base: u64, le: bool, k: int) -> (u64, Seq<u8>, Seq<char>, Seq<char>, usize) {
    let off = start + 4 * k;
    let w = word_at(d, off, le);
    let (m, o) = ppc_text(w, (base + 4 * k) as u64);
    ((base + 4 * k) as u64, d.subrange(off, off + 4), m, o, 4)
}

/// The listing of `max` words at most from byte `start`, shown at `base`.
pub open spec fn ppc_listing(d: Seq<u8>, start: int, base: u64, max: nat, le: bool) -> Seq<(u64, Seq<u8>, Seq<char>, Seq<char>, usize)> {
    Seq::new(listing_len(d.len(), start, max), |k: int| ppc_entry(d, start, base, le, k))
}

/// Every listed address fits in 64 bits and every relative branch in the
/// listing stays within the signed 64-bit range.
pub open spec fn listing_ok(d: Seq<u8>, start: int, base: u64, max: nat, le: bool) -> bool {
    forall|k: int| 0 <= k < listing_len(d.len(), start, max) ==> {
        &&& base + 4 * k <= u64::MAX
        &&& ppc_branch_fits(#[trigger] word_at(d, start + 4 * k, le), (base + 4 * k) as u64)
    }
}

fn read_word_le(data: &[u8], offset: usize) -> (r: u32)
    requires
        offset + 4 <= data.len(),
    ensures
        r == word_at(data@, offset as int, true),
{
    crate::cfg::read_word(data, offset, true)
}

fn read_u32_be(data: &[u8], offset: usize) -> (r: u32)
    requires
        offset + 4 <= data.len(),
    ensures
        r == word_at(data@, offset as int, false),
{
    crate::cfg::read_word(data, offset, false)
}

fn ppc_listing_exec(data: &[u8], start: usize, base: u64, max: usize, le: bool) -> (out: Vec<PpcInstruction>)
    requires
        listing_ok(data@, start as int, base, max as nat, le),
    ensures
        out@.map_values(|i: PpcInstruction| ppc_view(i)) == ppc_listing(data@, start as int, base, max as nat, le),
{
    let ghost n = listing_len(data.len() as nat, start as int, max as nat);
    let mut out: Vec<PpcInstruction> = Vec::new();
    let mut k: usize = 0;
    while k < max && start <= data.len() && (data.len() - start) / 4 > k
        invariant
            n == listing_len(data.len() as nat, start as int, max as nat),
            listing_ok(data@, start as int, base, max as nat, le),
            k <= n,
            out@.len() == k,
            forall|q: int| 0 <= q < k ==> ppc_view(#[trigger] out@[q]) == ppc_entry(data@, start as int, base, le, q),
        decreases max - k,
    {
        let offset: usize = start + k * 4;
        let instr = if le { read_word_le(data, offset) } else { read_u32_be(data, offset) };
        assert(instr == word_at(data@, start + 4 * k, le));
        assert(base + 4 * k <= u64::MAX);
        let addr: u64 = base + (k as u64) * 4;
        let (mnemonic, operands) = decode_ppc_instruction(instr, addr);
        let bytes = vstd::slice::slice_to_vec(&data[offset..offset + 4]);
        let ghost o0 = out@;
        out.push(PpcInstruction { address: addr, bytes, mnemonic, operands, size: 4 });
        proof {
            assert forall|q: int| 0 <= q < k + 1 implies ppc_view(#[trigger] out@[q]) == ppc_entry(data@, start as int, base, le, q) by {
                if q < k {
                    assert(out@[q] == o0[q]);
                }
            }
        }
        k = k + 1;
    }
    assert(out@.map_values(|i: PpcInstruction| ppc_view(i)) =~= ppc_listing(data@, start as int, base, max as nat, le));
    out
}

/// Disassemble little-endian PowerPC words from byte offset `address` of
/// `data`, shown at that same address, at most `max_instructions` of them.
pub fn disassemble_ppc_instruction(data: &[u8], address: u64, max_instructions: usize) -> (out: Vec<PpcInstruction>)
    requires
        address <= usize::MAX,
        listing_ok(data@, address as int, address, max_instructions as nat, true),
    ensures
        out@.map_values(|i: PpcInstruction| ppc_view(i)) == ppc_listing(data@, address as int, address, max_instructions as nat, true),
{
    ppc_listing_exec(data, address as usize, address, max_instructions, true)
}

/// Disassemble PowerPC words starting at byte `file_offset` of `data`, shown
/// from `display_address`, read with the given byte order.
pub fn disassemble_ppc_at(
    data: &[u8],
    file_offset: usize,
    display_address: u64,
    max_instructions: usize,
    endian: PpcEndian,
) -> (out: Vec<PpcInstruction>)
    requires
        listing_ok(data@, file_offset as int, display_address, max_instructions as nat, endian == PpcEndian::Little),
    ensures
        out@.map_values(|i: PpcInstruction| ppc_view(i))
            == ppc_listing(data@, file_offset as int, display_address, max_instructions as nat, endian == PpcEndian::Little),
{
    let le = match endian {
        PpcEndian::Little => true,
        PpcEndian::Big => false,
    };
    ppc_listing_exec(data, file_offset, display_address, max_instructions, le)
}

/// The display name of special-purpose register `spr`.
pub fn spr_name(spr: u16) -> (r: String)
    ensures
        r@ == spr_text(spr as u32),
{
    spr_s(spr as u32)
}

/// A listing holds one entry per whole word it covers, at most `max`; entry
/// `k` is the four bytes at `start + 4k`, shown at `base + 4k`.
pub proof fn ppc_listing_layout(d: Seq<u8>, start: int, base: u64, max: nat, le: bool)
    ensures
        ppc_listing(d, start, base, max, le).len() == listing_len(d.len(), start, max),
        listing_len(d.len(), start, max) <= max,
        start >= 0 ==> start + 4 * listing_len(d.len(), start, max) <= d.len() || listing_len(d.len(), start, max) == 0,
        forall|k: int| 0 <= k < ppc_listing(d, start, base, max, le).len() ==> {
            &&& (#[trigger] ppc_listing(d, start, base, max, le)[k]).0 == (base + 4 * k) as u64
            &&& ppc_listing(d, start, base, max, le)[k].1 == d.subrange(start + 4 * k, start + 4 * k + 4)
            &&& ppc_listing(d, start, base, max, le)[k].4 == 4
        },
{
    if start <= d.len() {
        let q = (d.len() - start) / 4;
        assert(4 * q <= d.len() - start);
    }
}

} // verus!
