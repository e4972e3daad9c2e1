use aura_decomp::cfg::build_function_cfg;
use aura_decomp::decomp::{self, IrStmt};
use std::collections::BTreeMap;

fn r_type(op: u32, rs: u32, rt: u32, rd: u32, shamt: u32, funct: u32) -> u32 {
    (op << 26) | (rs << 21) | (rt << 16) | (rd << 11) | (shamt << 6) | funct
}

fn i_type(op: u32, rs: u32, rt: u32, imm: u32) -> u32 {
    (op << 26) | (rs << 21) | (rt << 16) | (imm & 0xFFFF)
}

fn j_type(op: u32, target: u32) -> u32 {
    (op << 26) | (target & 0x03FFFFFF)
}

const JR_RA: u32 = 0x03E00008;
const NOP: u32 = 0x00000000;

fn words_le(words: &[u32]) -> Vec<u8> {
    let mut v = Vec::with_capacity(words.len() * 4);
    for w in words {
        v.extend_from_slice(&w.to_le_bytes());
    }
    v
}


#[test]
fn lift_nop() {
    let known = BTreeMap::new();
    let stmts = decomp::lift_instruction(NOP, 0x1000, &known);
    assert_eq!(stmts.len(), 1);
    assert!(matches!(stmts[0], IrStmt::Nop));
}

#[test]
fn lift_addu_is_binop_add() {
    // addu $v0,$a0,$a1 = op0 rs4 rt5 rd2 funct0x21
    let w = r_type(0, 4, 5, 2, 0, 0x21);
    let known = BTreeMap::new();
    let stmts = decomp::lift_instruction(w, 0x1000, &known);
    assert_eq!(stmts.len(), 1);
    match &stmts[0] {
        IrStmt::BinOp { dst, op, a, b } => {
            assert_eq!(dst, "$v0");
            assert_eq!(op, "+");
            assert_eq!(a, "$a0");
            assert_eq!(b, "$a1");
        }
        other => panic!("expected BinOp, got {:?}", other),
    }
}

#[test]
fn lift_sub_is_binop_sub() {
    // sub $v0,$a0,$a1 = funct0x22
    let w = r_type(0, 4, 5, 2, 0, 0x22);
    let stmts = decomp::lift_instruction(w, 0x1000, &BTreeMap::new());
    assert!(matches!(stmts[0], IrStmt::BinOp { ref op, .. } if op == "-"));
}

#[test]
fn lift_and_or_xor() {
    for (funct, sym) in [(0x24u32, "&"), (0x25, "|"), (0x26, "^")] {
        let w = r_type(0, 4, 5, 2, 0, funct);
        let stmts = decomp::lift_instruction(w, 0x1000, &BTreeMap::new());
        assert!(
            matches!(&stmts[0], IrStmt::BinOp { op, .. } if op == sym),
            "funct {:#x} should lift to op {}",
            funct, sym
        );
    }
}

#[test]
fn lift_jal_uses_known_name() {
    // jal 0x2000 → known_funcs maps it to "my_func"
    let w = j_type(3, 0x2000 >> 2);
    let mut known = BTreeMap::new();
    known.insert(0x2000, "my_func".to_string());
    let stmts = decomp::lift_instruction(w, 0x1000, &known);
    match &stmts[0] {
        IrStmt::Call { target } => assert_eq!(target, "my_func"),
        other => panic!("expected Call, got {:?}", other),
    }
}

#[test]
fn lift_jal_unknown_renders_address() {
    let w = j_type(3, 0x2000 >> 2);
    let stmts = decomp::lift_instruction(w, 0x1000, &BTreeMap::new());
    match &stmts[0] {
        IrStmt::Call { target } => assert!(target.contains("2000"), "got {}", target),
        other => panic!("expected Call, got {:?}", other),
    }
}

#[test]
fn lift_beq_is_cond_goto() {
    // beq $a0,$a1,+3 → CondGoto { cond: "$a0 == $a1", label: loc_... }
    let w = i_type(4, 4, 5, 3);
    let stmts = decomp::lift_instruction(w, 0x1004, &BTreeMap::new());
    match &stmts[0] {
        IrStmt::CondGoto { cond, label } => {
            assert!(cond.contains("$a0"), "cond={}", cond);
            assert!(cond.contains("$a1"));
            // target = 0x1004 + 4 + 3*4 = 0x1014
            assert!(label.contains("1014"), "label={}", label);
        }
        other => panic!("expected CondGoto, got {:?}", other),
    }
}

#[test]
fn lift_load_word() {
    // lw $t0, 8($a0) = op0x23 rs4 rt8 imm8
    let w = i_type(0x23, 4, 8, 8);
    let stmts = decomp::lift_instruction(w, 0x1000, &BTreeMap::new());
    match &stmts[0] {
        IrStmt::Load { dst, base, offset, size } => {
            assert_eq!(dst, "$t0");
            assert_eq!(base, "$a0");
            assert_eq!(*offset, 8);
            assert_eq!(*size, 4);
        }
        other => panic!("expected Load, got {:?}", other),
    }
}

#[test]
fn lift_store_word() {
    // sw $t0, 16($sp) = op0x2b rs29 rt8 imm16
    let w = i_type(0x2B, 29, 8, 16);
    let stmts = decomp::lift_instruction(w, 0x1000, &BTreeMap::new());
    assert!(matches!(&stmts[0], IrStmt::Store { size: 4, offset: 16, .. }));
}

#[test]
fn lift_addiu_imm_is_signed() {
    // addiu $sp,$sp,-8 → op9 rs29 rt29 imm=0xFFF8 (-8)
    let w = i_type(9, 29, 29, 0xFFF8);
    let stmts = decomp::lift_instruction(w, 0x1000, &BTreeMap::new());
    match &stmts[0] {
        IrStmt::BinOp { dst, op, a, b } => {
            assert_eq!(dst, "$sp");
            assert_eq!(op, "+");
            assert_eq!(a, "$sp");
            assert_eq!(b, "-8", "addiu imm should be sign-extended to -8, got {}", b);
        }
        other => panic!("expected BinOp, got {:?}", other),
    }
}

#[test]
fn lift_unknown_word_is_raw() {
    // An op field with no handler (e.g. op=0x3F, funct=0x3F) → Raw.
    let w = 0xFFFFFFFF;
    let stmts = decomp::lift_instruction(w, 0x1000, &BTreeMap::new());
    assert!(matches!(stmts[0], IrStmt::Raw { .. }));
}

#[test]
fn decompile_function_renders_jr_ra_as_return() {
    // jr $ra in the CFG must be emitted as "return;" (not "goto $ra;").
    //   0x1000: jr $ra ; 0x1004: nop (delay slot)
    let data = words_le(&[JR_RA, NOP]);
    let cfg = build_function_cfg(&data, 0x1000, 0x1000, 0x1008, true);
    let d = decomp::decompile_function(&cfg, &data, 0x1000, true, &BTreeMap::new());
    assert!(d.pseudocode.contains("return;"), "pseudocode was:\n{}", d.pseudocode);
    assert!(!d.pseudocode.contains("goto $ra;"), "should not emit goto $ra");
}

#[test]
fn decompile_function_names_unknown_entry_as_sub() {
    let data = words_le(&[JR_RA, NOP]);
    let cfg = build_function_cfg(&data, 0x1000, 0x1000, 0x1008, true);
    let d = decomp::decompile_function(&cfg, &data, 0x1000, true, &BTreeMap::new());
    assert!(d.pseudocode.contains("void sub_"), "pseudocode:\n{}", d.pseudocode);
    // The header comment renders the entry as 0x{08X} = "0x00001000".
    assert!(d.pseudocode.contains("0x00001000"), "pseudocode:\n{}", d.pseudocode);
}

#[test]
fn decompile_function_uses_known_name() {
    let data = words_le(&[JR_RA, NOP]);
    let cfg = build_function_cfg(&data, 0x1000, 0x1000, 0x1008, true);
    let mut known = BTreeMap::new();
    known.insert(0x1000, "do_thing".to_string());
    let d = decomp::decompile_function(&cfg, &data, 0x1000, true, &known);
    assert!(d.pseudocode.contains("void do_thing()"), "pseudocode:\n{}", d.pseudocode);
}

#[test]
fn decompile_function_emits_label_for_branch_target() {
    // A branch creates a block target that must get a loc_ label.
    //   0x1000: beq $a0,$a1,0x1008 (imm=1: 0x1000+4+1*4=0x1008)
    //   0x1004: nop (delay slot)
    //   0x1008: jr $ra ; 0x100C: nop
    let beq = i_type(4, 4, 5, 1);
    let data = words_le(&[beq, NOP, JR_RA, NOP]);
    let cfg = build_function_cfg(&data, 0x1000, 0x1000, 0x1010, true);
    let d = decomp::decompile_function(&cfg, &data, 0x1000, true, &BTreeMap::new());
    assert!(d.pseudocode.contains("loc_00001008"), "pseudocode:\n{}", d.pseudocode);
    assert!(d.pseudocode.contains("if ("), "should contain a conditional");
}
