use aura_decomp::ps1_disasm::{disassemble_ps1_section, memory_note_for_base, DisasmLine};

/// Build a big-endian byte slice from instruction words and disassemble it.
fn disasm_words(words: &[u32], base: u32) -> Vec<DisasmLine> {
    let mut data = Vec::new();
    for w in words {
        data.extend_from_slice(&w.to_be_bytes());
    }
    disassemble_ps1_section(&data, base)
}

#[test]
fn decodes_nop() {
    let lines = disasm_words(&[0x0000_0000], 0x2000_0000);
    assert_eq!(lines.len(), 1);
    assert_eq!(lines[0].mnemonic, "nop");
}

#[test]
fn decodes_jr() {
    // jr $ra = op=0, rs=31, funct=8 → 0x0000_0008 | (31 << 21) = 0x0000_0008 + 0x3C00_0000
    let instr: u32 = (31u32 << 21) | 0x08;
    let lines = disasm_words(&[instr], 0x2000_0000);
    assert_eq!(lines.len(), 1);
    assert_eq!(lines[0].mnemonic, "jr");
    assert_eq!(lines[0].operands, vec!["$ra".to_string()]);
}

#[test]
fn decodes_lui() {
    // lui $v0, 0x3000 = op=0x0D, rt=2, imm16=0x3000 → 0x3C02_3000
    let lines = disasm_words(&[0x3C02_3000], 0x2000_0000);
    assert_eq!(lines.len(), 1);
    assert_eq!(lines[0].mnemonic, "lui");
    assert_eq!(lines[0].operands, vec!["$v0".to_string(), "0x3000".to_string()]);
}

#[test]
fn decodes_mfc0() {
    // mfc0 $v0, $a0 = op=0x10, rs=0, rt=4, rd=2 → 0x4020_0000 | (4 << 16) | (2 << 11)
    let instr: u32 = (0x10u32 << 26) | (0u32 << 21) | (4u32 << 16) | (2u32 << 11);
    let lines = disasm_words(&[instr], 0x2000_0000);
    assert_eq!(lines.len(), 1);
    assert_eq!(lines[0].mnemonic, "mfc0");
}

#[test]
fn decodes_subu() {
    // subu $v0, $a0, $a1 = op=0, rs=4, rt=5, rd=2, funct=0x23 → 0x00A5_2023
    let lines = disasm_words(&[0x00A5_2023], 0x2000_0000);
    assert_eq!(lines.len(), 1);
    assert_eq!(lines[0].mnemonic, "subu");
}

#[test]
fn decodes_andi() {
    // andi $v0, $a0, 0xFF = op=0x0A, rs=4, rt=2, imm16=0xFF → 0x3C02_00FF | (0x0A << 26)
    let instr: u32 = (0x0Au32 << 26) | (4u32 << 21) | (2u32 << 16) | 0xFF;
    let lines = disasm_words(&[instr], 0x2000_0000);
    assert_eq!(lines.len(), 1);
    assert_eq!(lines[0].mnemonic, "andi");
}

#[test]
fn decodes_unknown_as_word() {
    // op=0x3F is not a valid MIPS I opcode → should be .word
    let instr: u32 = (0x3Fu32 << 26);
    let lines = disasm_words(&[instr], 0x2000_0000);
    assert_eq!(lines.len(), 1);
    assert_eq!(lines[0].mnemonic, ".word");
}

#[test]
fn addresses_are_correct() {
    let words = [0x3C02_3000u32, 0x2450_8021u32];
    let lines = disasm_words(&words, 0x2000_1000);
    assert_eq!(lines[0].address, 0x2000_1000);
    assert_eq!(lines[1].address, 0x2000_1004);
}

#[test]
fn raw_word_is_preserved() {
    let words = [0xDEAD_BEEFu32];
    let lines = disasm_words(&words, 0x2000_0000);
    assert_eq!(lines[0].raw_word, 0xDEAD_BEEF);
}

#[test]
fn empty_data_returns_empty() {
    let lines = disassemble_ps1_section(&[], 0x2000_0000);
    assert!(lines.is_empty());
}

#[test]
fn odd_length_is_truncated_to_word_boundary() {
    // 5 bytes → only first word is decoded
    let data = [0x3C, 0x02, 0x30, 0x00, 0xFF];
    let lines = disassemble_ps1_section(&data, 0x2000_0000);
    assert_eq!(lines.len(), 1);
}

#[test]
fn gpu_register_load_is_annotated() {
    // lw $v0, 0x30000000 → the immediate is in GPU register range
    // But this is a load with base reg + offset; we annotate when imm looks like abs addr.
    // For a pure absolute address load: lui $a1, 0x3000; lw $v0, 0($a1) — the lw has imm=0, no annotation.
    // Test the annotation path via memory_note_for_base with a direct GPU address offset.
    let note = memory_note_for_base(4, 0x3000_0000);
    assert_eq!(note, Some("GPU register".to_string()));
}

#[test]
fn spu_register_load_is_annotated() {
    let note = memory_note_for_base(4, 0x1D00_0000);
    assert_eq!(note, Some("SPU register".to_string()));
}

#[test]
fn io_controller_load_is_annotated() {
    let note = memory_note_for_base(4, 0x3800_0000);
    assert_eq!(note, Some("I/O controller".to_string()));
}

#[test]
fn normal_ram_offset_has_no_annotation() {
    let note = memory_note_for_base(4, 16);
    assert!(note.is_none());
}

#[test]
fn negative_offset_has_no_annotation() {
    let note = memory_note_for_base(4, -8);
    assert!(note.is_none());
}

#[test]
fn decodes_jalr() {
    // jalr $ra = op=0, rs=31, rd=0, funct=9 → (31 << 21) | (0 << 16) | (0 << 11) | 9
    let instr: u32 = (31u32 << 21) | 0x09;
    let lines = disasm_words(&[instr], 0x2000_0000);
    assert_eq!(lines.len(), 1);
    assert_eq!(lines[0].mnemonic, "jalr");
}

#[test]
fn decodes_mult() {
    // mult $a0, $a1 = op=0, rs=4, rt=5, funct=0x18 → (4 << 21) | (5 << 16) | 0x18
    let instr: u32 = (4u32 << 21) | (5u32 << 16) | 0x18;
    let lines = disasm_words(&[instr], 0x2000_0000);
    assert_eq!(lines.len(), 1);
    assert_eq!(lines[0].mnemonic, "mult");
}

#[test]
fn decodes_bltz() {
    // bltz $a0, +4 = op=1, rs=4, rt=0, imm=1 → (1 << 26) | (4 << 21) | (0 << 16) | 1
    let instr: u32 = (1u32 << 26) | (4u32 << 21) | 1;
    let lines = disasm_words(&[instr], 0x2000_0000);
    assert_eq!(lines.len(), 1);
    assert_eq!(lines[0].mnemonic, "bltz");
}

#[test]
fn decodes_slt() {
    // slt $v0, $a0, $a1 = op=0, rs=4, rt=5, rd=2, funct=0x2A → (4 << 21) | (5 << 16) | (2 << 11) | 0x2A
    let instr: u32 = (4u32 << 21) | (5u32 << 16) | (2u32 << 11) | 0x2A;
    let lines = disasm_words(&[instr], 0x2000_0000);
    assert_eq!(lines.len(), 1);
    assert_eq!(lines[0].mnemonic, "slt");
}

#[test]
fn decodes_or() {
    // or $v0, $a0, $a1 = op=0, rs=4, rt=5, rd=2, funct=0x25 → (4 << 21) | (5 << 16) | (2 << 11) | 0x25
    let instr: u32 = (4u32 << 21) | (5u32 << 16) | (2u32 << 11) | 0x25;
    let lines = disasm_words(&[instr], 0x2000_0000);
    assert_eq!(lines.len(), 1);
    assert_eq!(lines[0].mnemonic, "or");
}

#[test]
fn decodes_xori() {
    // xori $v0, $a0, 0x55 = op=0x0E, rs=4, rt=2, imm16=0x55 → (0x0E << 26) | (4 << 21) | (2 << 16) | 0x55
    let instr: u32 = (0x0Eu32 << 26) | (4u32 << 21) | (2u32 << 16) | 0x55;
    let lines = disasm_words(&[instr], 0x2000_0000);
    assert_eq!(lines.len(), 1);
    assert_eq!(lines[0].mnemonic, "xori");
}

#[test]
fn decodes_lbu() {
    // lbu $v0, -4($sp) = op=0x24, rs=29, rt=2, imm=-4 → (0x24 << 26) | (29 << 21) | (2 << 16) | 0xFFFC
    let instr: u32 = (0x24u32 << 26) | (29u32 << 21) | (2u32 << 16) | 0xFFFC;
    let lines = disasm_words(&[instr], 0x2000_0000);
    assert_eq!(lines.len(), 1);
    assert_eq!(lines[0].mnemonic, "lbu");
}

#[test]
fn decodes_sh() {
    // sh $a0, 4($fp) = op=0x29, rs=31, rt=4, imm=4 → (0x29 << 26) | (31 << 21) | (4 << 16) | 4
    let instr: u32 = (0x29u32 << 26) | (31u32 << 21) | (4u32 << 16) | 4;
    let lines = disasm_words(&[instr], 0x2000_0000);
    assert_eq!(lines.len(), 1);
    assert_eq!(lines[0].mnemonic, "sh");
}

#[test]
fn decodes_bne() {
    // bne $v0, $a0, +4 = op=5, rs=2, rt=4, imm=1 → (5 << 26) | (2 << 21) | (4 << 16) | 1
    let instr: u32 = (5u32 << 26) | (2u32 << 21) | (4u32 << 16) | 1;
    let lines = disasm_words(&[instr], 0x2000_0000);
    assert_eq!(lines.len(), 1);
    assert_eq!(lines[0].mnemonic, "bne");
}

#[test]
fn ps1_disasm_decodes_beq_l() {
    // beql $v0, $a0, +4 = op=20, rs=2, rt=4, imm=1 → (20 << 26) | (2 << 21) | (4 << 16) | 1
    let instr: u32 = (20u32 << 26) | (2u32 << 21) | (4u32 << 16) | 1;
    let lines = disasm_words(&[instr], 0x2000_0000);
    assert_eq!(lines.len(), 1);
    assert_eq!(lines[0].mnemonic, "beql");
}

#[test]
fn decodes_bgez_l() {
    // bgezl $a0, +4 = op=1, rs=4, rt=3, imm=1 → (1 << 26) | (4 << 21) | (3 << 16) | 1
    let instr: u32 = (1u32 << 26) | (4u32 << 21) | (3u32 << 16) | 1;
    let lines = disasm_words(&[instr], 0x2000_0000);
    assert_eq!(lines.len(), 1);
    assert_eq!(lines[0].mnemonic, "bgezl");
}

#[test]
fn decodes_mtc0() {
    // mtc0 $a0, $v0 = op=0x10, rs=4, rt=4, rd=2 → (0x10 << 26) | (4 << 21) | (4 << 16) | (2 << 11)
    let instr: u32 = (0x10u32 << 26) | (4u32 << 21) | (4u32 << 16) | (2u32 << 11);
    let lines = disasm_words(&[instr], 0x2000_0000);
    assert_eq!(lines.len(), 1);
    assert_eq!(lines[0].mnemonic, "mtc0");
}

#[test]
fn decodes_srl() {
    // srl $t0, $a0, 3 = op=0, rs=0, rt=4, rd=8, shamt=3, funct=2 → (0 << 6) | (3 << 6) | (8 << 11) | (4 << 16) | 2
    let instr: u32 = (0u32 << 26) | (0u32 << 21) | (4u32 << 16) | (8u32 << 11) | (3u32 << 6) | 2;
    let lines = disasm_words(&[instr], 0x2000_0000);
    assert_eq!(lines.len(), 1);
    assert_eq!(lines[0].mnemonic, "srl");
}

#[test]
fn decodes_sra() {
    // sra $t0, $a0, 7 = op=0, rs=0, rt=4, rd=8, shamt=7, funct=3 → (0 << 6) | (7 << 6) | (8 << 11) | (4 << 16) | 3
    let instr: u32 = (0u32 << 26) | (0u32 << 21) | (4u32 << 16) | (8u32 << 11) | (7u32 << 6) | 3;
    let lines = disasm_words(&[instr], 0x2000_0000);
    assert_eq!(lines.len(), 1);
    assert_eq!(lines[0].mnemonic, "sra");
}

#[test]
fn decodes_sllv() {
    // sllv $t0, $a0, $a1 = op=0, rs=5, rt=4, rd=8, funct=4 → (5 << 21) | (4 << 16) | (8 << 11) | 4
    let instr: u32 = (0u32 << 26) | (5u32 << 21) | (4u32 << 16) | (8u32 << 11) | 4;
    let lines = disasm_words(&[instr], 0x2000_0000);
    assert_eq!(lines.len(), 1);
    assert_eq!(lines[0].mnemonic, "sllv");
}

#[test]
fn decodes_mfhi() {
    // mfhi $t0 = op=0, rs=0, rd=8, funct=0x10 → (0 << 21) | (0 << 16) | (8 << 11) | 0x10
    let instr: u32 = (0u32 << 26) | (0u32 << 21) | (0u32 << 16) | (8u32 << 11) | 0x10;
    let lines = disasm_words(&[instr], 0x2000_0000);
    assert_eq!(lines.len(), 1);
    assert_eq!(lines[0].mnemonic, "mfhi");
}

#[test]
fn decodes_mflo() {
    // mflo $t0 = op=0, rs=0, rd=8, funct=0x12 → (0 << 21) | (0 << 16) | (8 << 11) | 0x12
    let instr: u32 = (0u32 << 26) | (0u32 << 21) | (0u32 << 16) | (8u32 << 11) | 0x12;
    let lines = disasm_words(&[instr], 0x2000_0000);
    assert_eq!(lines.len(), 1);
    assert_eq!(lines[0].mnemonic, "mflo");
}

#[test]
fn decodes_div() {
    // div $a0, $a1 = op=0, rs=4, rt=5, funct=0x1A → (4 << 21) | (5 << 16) | 0x1A
    let instr: u32 = (0u32 << 26) | (4u32 << 21) | (5u32 << 16) | 0x1A;
    let lines = disasm_words(&[instr], 0x2000_0000);
    assert_eq!(lines.len(), 1);
    assert_eq!(lines[0].mnemonic, "div");
}

#[test]
fn decodes_nor() {
    // nor $v0, $a0, $a1 = op=0, rs=4, rt=5, rd=2, funct=0x27 → (4 << 21) | (5 << 16) | (2 << 11) | 0x27
    let instr: u32 = (4u32 << 21) | (5u32 << 16) | (2u32 << 11) | 0x27;
    let lines = disasm_words(&[instr], 0x2000_0000);
    assert_eq!(lines.len(), 1);
    assert_eq!(lines[0].mnemonic, "nor");
}

#[test]
fn decodes_sltu() {
    // sltu $v0, $a0, $a1 = op=0, rs=4, rt=5, rd=2, funct=0x2B → (4 << 21) | (5 << 16) | (2 << 11) | 0x2B
    let instr: u32 = (4u32 << 21) | (5u32 << 16) | (2u32 << 11) | 0x2B;
    let lines = disasm_words(&[instr], 0x2000_0000);
    assert_eq!(lines.len(), 1);
    assert_eq!(lines[0].mnemonic, "sltu");
}

#[test]
fn decodes_lwl() {
    // lwl $v0, 4($sp) = op=0x22, rs=29, rt=2, imm=4 → (0x22 << 26) | (29 << 21) | (2 << 16) | 4
    let instr: u32 = (0x22u32 << 26) | (29u32 << 21) | (2u32 << 16) | 4;
    let lines = disasm_words(&[instr], 0x2000_0000);
    assert_eq!(lines.len(), 1);
    assert_eq!(lines[0].mnemonic, "lwl");
}

#[test]
fn decodes_lwr() {
    // lwr $v0, 4($sp) = op=0x26, rs=29, rt=2, imm=4 → (0x26 << 26) | (29 << 21) | (2 << 16) | 4
    let instr: u32 = (0x26u32 << 26) | (29u32 << 21) | (2u32 << 16) | 4;
    let lines = disasm_words(&[instr], 0x2000_0000);
    assert_eq!(lines.len(), 1);
    assert_eq!(lines[0].mnemonic, "lwr");
}

#[test]
fn decodes_swl() {
    // swl $a0, 4($fp) = op=0x2A, rs=31, rt=4, imm=4 → (0x2A << 26) | (31 << 21) | (4 << 16) | 4
    let instr: u32 = (0x2Au32 << 26) | (31u32 << 21) | (4u32 << 16) | 4;
    let lines = disasm_words(&[instr], 0x2000_0000);
    assert_eq!(lines.len(), 1);
    assert_eq!(lines[0].mnemonic, "swl");
}

#[test]
fn decodes_swr() {
    // swr $a0, 4($fp) = op=0x2E, rs=31, rt=4, imm=4 → (0x2E << 26) | (31 << 21) | (4 << 16) | 4
    let instr: u32 = (0x2Eu32 << 26) | (31u32 << 21) | (4u32 << 16) | 4;
    let lines = disasm_words(&[instr], 0x2000_0000);
    assert_eq!(lines.len(), 1);
    assert_eq!(lines[0].mnemonic, "swr");
}

#[test]
fn decodes_ll() {
    // ll $v0, 4($sp) = op=0x30, rs=29, rt=2, imm=4 → (0x30 << 26) | (29 << 21) | (2 << 16) | 4
    let instr: u32 = (0x30u32 << 26) | (29u32 << 21) | (2u32 << 16) | 4;
    let lines = disasm_words(&[instr], 0x2000_0000);
    assert_eq!(lines.len(), 1);
    assert_eq!(lines[0].mnemonic, "ll");
}

#[test]
fn decodes_sc() {
    // sc $a0, 4($fp) = op=0x38, rs=31, rt=4, imm=4 → (0x38 << 26) | (31 << 21) | (4 << 16) | 4
    let instr: u32 = (0x38u32 << 26) | (31u32 << 21) | (4u32 << 16) | 4;
    let lines = disasm_words(&[instr], 0x2000_0000);
    assert_eq!(lines.len(), 1);
    assert_eq!(lines[0].mnemonic, "sc");
}

#[test]
fn decodes_swc1() {
    // swc1 $f4, 8($a0) = op=0x39, rs=4, rt=4, imm=8 → (0x39 << 26) | (4 << 21) | (4 << 16) | 8
    let instr: u32 = (0x39u32 << 26) | (4u32 << 21) | (4u32 << 16) | 8;
    let lines = disasm_words(&[instr], 0x2000_0000);
    assert_eq!(lines.len(), 1);
    assert_eq!(lines[0].mnemonic, "swc1");
}

#[test]
fn decodes_cache() {
    // cache index, $a0, 4($sp) = op=0x2F, rs=29, rt=4, shamt=0 → (0x2F << 26) | (29 << 21) | (4 << 16) | 0
    let instr: u32 = (0x2Fu32 << 26) | (29u32 << 21) | (4u32 << 16);
    let lines = disasm_words(&[instr], 0x2000_0000);
    assert_eq!(lines.len(), 1);
    assert_eq!(lines[0].mnemonic, "cache");
}

#[test]
fn ps1_disasm_decodes_bltzal() {
    // bltzal $a0, +4 = op=1, rs=4, rt=0x10, imm=1 → (1 << 26) | (4 << 21) | (0x10 << 16) | 1
    let instr: u32 = (1u32 << 26) | (4u32 << 21) | (0x10u32 << 16) | 1;
    let lines = disasm_words(&[instr], 0x2000_0000);
    assert_eq!(lines.len(), 1);
    assert_eq!(lines[0].mnemonic, "bltzal");
}

#[test]
fn ps1_disasm_decodes_bgezal() {
    // bgezal $a0, +4 = op=1, rs=4, rt=0x11, imm=1 → (1 << 26) | (4 << 21) | (0x11 << 16) | 1
    let instr: u32 = (1u32 << 26) | (4u32 << 21) | (0x11u32 << 16) | 1;
    let lines = disasm_words(&[instr], 0x2000_0000);
    assert_eq!(lines.len(), 1);
    assert_eq!(lines[0].mnemonic, "bgezal");
}

#[test]
fn ps1_disasm_decodes_bne_l() {
    // bnel $v0, $a0, +4 = op=21, rs=2, rt=4, imm=1 → (21 << 26) | (2 << 21) | (4 << 16) | 1
    let instr: u32 = (21u32 << 26) | (2u32 << 21) | (4u32 << 16) | 1;
    let lines = disasm_words(&[instr], 0x2000_0000);
    assert_eq!(lines.len(), 1);
    assert_eq!(lines[0].mnemonic, "bnel");
}

#[test]
fn ps1_disasm_decodes_bltz_l() {
    // bltzl $a0, +4 = op=1, rs=4, rt=2, imm=1 → (1 << 26) | (4 << 21) | (2 << 16) | 1
    let instr: u32 = (1u32 << 26) | (4u32 << 21) | (2u32 << 16) | 1;
    let lines = disasm_words(&[instr], 0x2000_0000);
    assert_eq!(lines.len(), 1);
    assert_eq!(lines[0].mnemonic, "bltzl");
}

#[test]
fn decodes_addiu() {
    // addiu $v0, $a0, -8 = op=7, rs=4, rt=2, imm=-8 → (7 << 26) | (4 << 21) | (2 << 16) | 0xFFF8
    let instr: u32 = (7u32 << 26) | (4u32 << 21) | (2u32 << 16) | 0xFFF8;
    let lines = disasm_words(&[instr], 0x2000_0000);
    assert_eq!(lines.len(), 1);
    assert_eq!(lines[0].mnemonic, "addiu");
}

#[test]
fn decodes_slti() {
    // slti $v0, $a0, 5 = op=8, rs=4, rt=2, imm=5 → (8 << 26) | (4 << 21) | (2 << 16) | 5
    let instr: u32 = (8u32 << 26) | (4u32 << 21) | (2u32 << 16) | 5;
    let lines = disasm_words(&[instr], 0x2000_0000);
    assert_eq!(lines.len(), 1);
    assert_eq!(lines[0].mnemonic, "slti");
}

#[test]
fn decodes_sltiu() {
    // sltiu $v0, $a0, 5 = op=9, rs=4, rt=2, imm=5 → (9 << 26) | (4 << 21) | (2 << 16) | 5
    let instr: u32 = (9u32 << 26) | (4u32 << 21) | (2u32 << 16) | 5;
    let lines = disasm_words(&[instr], 0x2000_0000);
    assert_eq!(lines.len(), 1);
    assert_eq!(lines[0].mnemonic, "sltiu");
}

#[test]
fn decodes_ori() {
    // ori $v0, $a0, 0x55 = op=0x0D, rs=4, rt=2, imm16=0x55 → (0x0D << 26) | (4 << 21) | (2 << 16) | 0x55
    let instr: u32 = (0x0Du32 << 26) | (4u32 << 21) | (2u32 << 16) | 0x55;
    let lines = disasm_words(&[instr], 0x2000_0000);
    assert_eq!(lines.len(), 1);
    assert_eq!(lines[0].mnemonic, "ori");
}

#[test]
fn decodes_lh() {
    // lh $v0, 4($sp) = op=0x21, rs=29, rt=2, imm=4 → (0x21 << 26) | (29 << 21) | (2 << 16) | 4
    let instr: u32 = (0x21u32 << 26) | (29u32 << 21) | (2u32 << 16) | 4;
    let lines = disasm_words(&[instr], 0x2000_0000);
    assert_eq!(lines.len(), 1);
    assert_eq!(lines[0].mnemonic, "lh");
}

#[test]
fn decodes_lhu() {
    // lhu $v0, 4($sp) = op=0x25, rs=29, rt=2, imm=4 → (0x25 << 26) | (29 << 21) | (2 << 16) | 4
    let instr: u32 = (0x25u32 << 26) | (29u32 << 21) | (2u32 << 16) | 4;
    let lines = disasm_words(&[instr], 0x2000_0000);
    assert_eq!(lines.len(), 1);
    assert_eq!(lines[0].mnemonic, "lhu");
}

#[test]
fn decodes_j() {
    // j target: op=2, target_field = 0x0000_0001 → (2 << 26) | 1
    let instr: u32 = (2u32 << 26) | 1;
    let lines = disasm_words(&[instr], 0x2000_0000);
    assert_eq!(lines.len(), 1);
    assert_eq!(lines[0].mnemonic, "j");
}

#[test]
fn decodes_syscall() {
    // syscall = op=0, rs=0, rt=0, rd=0, shamt=0, funct=0x0C → 0x0000_000C
    let lines = disasm_words(&[0x0000_000C], 0x2000_0000);
    assert_eq!(lines.len(), 1);
    assert_eq!(lines[0].mnemonic, "syscall");
}

#[test]
fn decodes_break() {
    // break = op=0, rs=0, rt=0, rd=0, shamt=0, funct=0x0D → 0x0000_000D
    let lines = disasm_words(&[0x0000_000D], 0x2000_0000);
    assert_eq!(lines.len(), 1);
    assert_eq!(lines[0].mnemonic, "break");
}

#[test]
fn decodes_mthi() {
    // mthi $a0 = op=0, rs=4, funct=0x11 → (4 << 21) | 0x11
    let instr: u32 = (4u32 << 21) | 0x11;
    let lines = disasm_words(&[instr], 0x2000_0000);
    assert_eq!(lines.len(), 1);
    assert_eq!(lines[0].mnemonic, "mthi");
}

#[test]
fn decodes_mtlo() {
    // mtlo $a0 = op=0, rs=4, funct=0x13 → (4 << 21) | 0x13
    let instr: u32 = (4u32 << 21) | 0x13;
    let lines = disasm_words(&[instr], 0x2000_0000);
    assert_eq!(lines.len(), 1);
    assert_eq!(lines[0].mnemonic, "mtlo");
}

#[test]
fn decodes_multu() {
    // multu $a0, $a1 = op=0, rs=4, rt=5, funct=0x19 → (4 << 21) | (5 << 16) | 0x19
    let instr: u32 = (4u32 << 21) | (5u32 << 16) | 0x19;
    let lines = disasm_words(&[instr], 0x2000_0000);
    assert_eq!(lines.len(), 1);
    assert_eq!(lines[0].mnemonic, "multu");
}

#[test]
fn decodes_divu() {
    // divu $a0, $a1 = op=0, rs=4, rt=5, funct=0x1B → (4 << 21) | (5 << 16) | 0x1B
    let instr: u32 = (4u32 << 21) | (5u32 << 16) | 0x1B;
    let lines = disasm_words(&[instr], 0x2000_0000);
    assert_eq!(lines.len(), 1);
    assert_eq!(lines[0].mnemonic, "divu");
}

#[test]
fn decodes_srlv() {
    // srlv $t0, $a0, $a1 = op=0, rs=5, rt=4, rd=8, funct=6 → (5 << 21) | (4 << 16) | (8 << 11) | 6
    let instr: u32 = (5u32 << 21) | (4u32 << 16) | (8u32 << 11) | 6;
    let lines = disasm_words(&[instr], 0x2000_0000);
    assert_eq!(lines.len(), 1);
    assert_eq!(lines[0].mnemonic, "srlv");
}

#[test]
fn decodes_srav() {
    // srav $t0, $a0, $a1 = op=0, rs=5, rt=4, rd=8, funct=7 → (5 << 21) | (4 << 16) | (8 << 11) | 7
    let instr: u32 = (5u32 << 21) | (4u32 << 16) | (8u32 << 11) | 7;
    let lines = disasm_words(&[instr], 0x2000_0000);
    assert_eq!(lines.len(), 1);
    assert_eq!(lines[0].mnemonic, "srav");
}

#[test]
fn decodes_and() {
    // and $v0, $a0, $a1 = op=0, rs=4, rt=5, rd=2, funct=0x24 → (4 << 21) | (5 << 16) | (2 << 11) | 0x24
    let instr: u32 = (4u32 << 21) | (5u32 << 16) | (2u32 << 11) | 0x24;
    let lines = disasm_words(&[instr], 0x2000_0000);
    assert_eq!(lines.len(), 1);
    assert_eq!(lines[0].mnemonic, "and");
}

#[test]
fn decodes_xor() {
    // xor $v0, $a0, $a1 = op=0, rs=4, rt=5, rd=2, funct=0x26 → (4 << 21) | (5 << 16) | (2 << 11) | 0x26
    let instr: u32 = (4u32 << 21) | (5u32 << 16) | (2u32 << 11) | 0x26;
    let lines = disasm_words(&[instr], 0x2000_0000);
    assert_eq!(lines.len(), 1);
    assert_eq!(lines[0].mnemonic, "xor");
}

#[test]
fn decodes_addu() {
    // addu $v0, $a0, $a1 = op=0, rs=4, rt=5, rd=2, funct=0x21 → (4 << 21) | (5 << 16) | (2 << 11) | 0x21
    let instr: u32 = (4u32 << 21) | (5u32 << 16) | (2u32 << 11) | 0x21;
    let lines = disasm_words(&[instr], 0x2000_0000);
    assert_eq!(lines.len(), 1);
    assert_eq!(lines[0].mnemonic, "addu");
}

#[test]
fn decodes_sub() {
    // sub $v0, $a0, $a1 = op=0, rs=4, rt=5, rd=2, funct=0x22 → (4 << 21) | (5 << 16) | (2 << 11) | 0x22
    let instr: u32 = (4u32 << 21) | (5u32 << 16) | (2u32 << 11) | 0x22;
    let lines = disasm_words(&[instr], 0x2000_0000);
    assert_eq!(lines.len(), 1);
    assert_eq!(lines[0].mnemonic, "sub");
}

#[test]
fn decodes_bgez_with_note() {
    // bgez to a target in GPU range: we can't easily craft this with small offsets,
    // so just verify the mnemonic and that note is None for normal targets.
    let instr: u32 = (1u32 << 26) | (4u32 << 21) | (1u32 << 16) | 1;
    let lines = disasm_words(&[instr], 0x2000_0000);
    assert_eq!(lines.len(), 1);
    assert_eq!(lines[0].mnemonic, "bgez");
}

#[test]
fn decodes_bltz_with_note() {
    let instr: u32 = (1u32 << 26) | (4u32 << 21) | (0u32 << 16) | 1;
    let lines = disasm_words(&[instr], 0x2000_0000);
    assert_eq!(lines.len(), 1);
    assert_eq!(lines[0].mnemonic, "bltz");
}

#[test]
fn ps1_disasm_decodes_bgezl() {
    let instr: u32 = (1u32 << 26) | (4u32 << 21) | (3u32 << 16) | 1;
    let lines = disasm_words(&[instr], 0x2000_0000);
    assert_eq!(lines.len(), 1);
    assert_eq!(lines[0].mnemonic, "bgezl");
}

// The next ten tests check the instructions their comments describe. The
// words are the MIPS I encodings of those instructions; the word written
// beside each in the comment encodes a different instruction under the
// same table that `decodes_lui`, `decodes_andi` and `decodes_sltiu` rely on,
// so that word is kept only as a note.

#[test]
fn decodes_add() {
    // add $v0, $a0, $a1: op=0, rs=4, rt=5, rd=2, funct=0x20 → 0x0085_1020
    // (0x2450_8021 has op=9, addiu).
    let lines = disasm_words(&[0x0085_1020], 0x2000_0000);
    assert_eq!(lines.len(), 1);
    assert_eq!(lines[0].mnemonic, "add");
    assert_eq!(lines[0].operands, vec!["$v0".to_string(), "$a0".to_string(), "$a1".to_string()]);
}

#[test]
fn decodes_lw() {
    // lw $v0, 4($sp): op=0x23, rs=29, rt=2, imm=4 → 0x8FA2_0004
    // (0xAFA2_0004 has op=0x2B, sw).
    let lines = disasm_words(&[0x8FA2_0004], 0x2000_0000);
    assert_eq!(lines.len(), 1);
    assert_eq!(lines[0].mnemonic, "lw");
    assert_eq!(lines[0].operands, vec!["$v0".to_string(), "4($sp)".to_string()]);
}

#[test]
fn decodes_sw() {
    // sw $a0, 8($fp): op=0x2B, rs=30, rt=4, imm=8 → 0xAFC4_0008
    // (0xAFE4_0008 has rs=31, which is $ra, not $fp).
    let lines = disasm_words(&[0xAFC4_0008], 0x2000_0000);
    assert_eq!(lines.len(), 1);
    assert_eq!(lines[0].mnemonic, "sw");
    assert_eq!(lines[0].operands, vec!["$a0".to_string(), "8($fp)".to_string()]);
}

#[test]
fn decodes_beq() {
    // beq $v0, $zero, +4: op=0x04, rs=2, rt=0, imm=1 → 0x1040_0001
    // (0x4400_0001 has op=0x11, COP1).
    let lines = disasm_words(&[0x1040_0001], 0x2000_0000);
    assert_eq!(lines.len(), 1);
    assert_eq!(lines[0].mnemonic, "beq");
    // branch target = 0x20000000 + 4 + (1 << 2) = 0x20000008
    assert_eq!(lines[0].operands[2], "0x20000008".to_string());
}

#[test]
fn decodes_jal() {
    // jal: op=3, target_field = 1 → 0x0C00_0001
    // (0x0800_0001 has op=2, j).
    let lines = disasm_words(&[0x0C00_0001], 0x2000_0000);
    assert_eq!(lines.len(), 1);
    assert_eq!(lines[0].mnemonic, "jal");
    // jaddr = (0x20000004 & 0xF0000000) | (1 << 2) = 0x20000004
    assert_eq!(lines[0].operands[0], "0x20000004".to_string());
}

#[test]
fn decodes_cop1_lwc1() {
    // lwc1 $f0, 0($a0): op=0x31, rs=4, rt=0, imm=0 → 0xC480_0000
    // (0x7420_0000 has op=0x1D).
    let lines = disasm_words(&[0xC480_0000], 0x2000_0000);
    assert_eq!(lines.len(), 1);
    assert_eq!(lines[0].mnemonic, "lwc1");
}

#[test]
fn decodes_sll() {
    // sll $t0, $a0, 5: op=0, rs=0, rt=4, rd=8, shamt=5, funct=0 → 0x0004_4140
    // (0x00A4_4020 has funct=0x20, add).
    let lines = disasm_words(&[0x0004_4140], 0x2000_0000);
    assert_eq!(lines.len(), 1);
    assert_eq!(lines[0].mnemonic, "sll");
    assert_eq!(lines[0].operands, vec!["$t0".to_string(), "$a0".to_string(), "5".to_string()]);
}

#[test]
fn decodes_bgez() {
    // bgez $a0, +8: op=1, rs=4, rt=1, imm=2 → 0x0481_0002
    // (0x4501_0002 has op=0x11, COP1).
    let lines = disasm_words(&[0x0481_0002], 0x2000_0000);
    assert_eq!(lines.len(), 1);
    assert_eq!(lines[0].mnemonic, "bgez");
}

#[test]
fn decodes_multiple_instructions() {
    // lui $v0, 0x3000; add $v0, $a0, $a1; lw $v0, 4($sp)
    let words = [0x3C02_3000u32, 0x0085_1020u32, 0x8FA2_0004u32];
    let lines = disasm_words(&words, 0x2000_0000);
    assert_eq!(lines.len(), 3);
    assert_eq!(lines[0].mnemonic, "lui");
    assert_eq!(lines[1].mnemonic, "add");
    assert_eq!(lines[2].mnemonic, "lw");
}

#[test]
fn decodes_beq_with_memory_note() {
    // beq $v0, $zero, +4 (see decodes_beq for the encoding).
    let lines = disasm_words(&[0x1040_0001], 0x2000_0000);
    assert_eq!(lines[0].mnemonic, "beq");
}
